//! Languages: a vocabulary, three rule collections, and the derivation
//! engine that replays an ancestor's vocabulary through the sound-change
//! chain while preserving word-level lineage.

use vstd::prelude::*;
use vstd::string::StringExecFns;
use crate::error::BabelError;
use crate::pattern::{PatRepl, Replace, Substitute, sub_views, chain_fix};
use crate::sca::{SCA, ScaView, SoundChange, cat_find, spec_compile_all};
use crate::word::{Coordinate, Word, WordView, word_views, fuse_view, labor_view};

verus! {

/// The views of a list of authored pattern/replacement pairs, in order.
pub open spec fn repl_views(rs: Seq<Replace>) -> Seq<PatRepl> {
    rs.map_values(|r: Replace| r@)
}

/// A word that derivation refreshes in place: exactly one lineage coordinate,
/// and that coordinate points into the chosen ancestor.
pub open spec fn eligible(w: WordView, aidx: usize) -> bool {
    w.ancestor.len() == 1 && w.ancestor[0].spec_lang() == aidx
}

/// The first phase of derivation, run over the first `n` descendant slots in
/// index order: an eligible word is fused with the freshly derived form of
/// its ancestor word and that ancestor slot is consumed; any other slot is
/// kept as it is. A dangling or already consumed lineage reference aborts
/// with the descendant slot's index; a non-stabilizing pipeline aborts too.
pub open spec fn drv_phase1(
    dv: Seq<Option<WordView>>,
    q: Seq<Option<WordView>>,
    aidx: usize,
    mnt: Seq<PatRepl>,
    m2w: Seq<PatRepl>,
    m2u: Seq<PatRepl>,
    n: nat,
) -> Result<(Seq<Option<WordView>>, Seq<Option<WordView>>), BabelError>
    recommends
        n <= dv.len(),
    decreases n,
{
    if n == 0 {
        Ok((Seq::empty(), q))
    } else {
        match drv_phase1(dv, q, aidx, mnt, m2w, m2u, (n - 1) as nat) {
            Err(e) => Err(e),
            Ok((out, q1)) => match dv[n - 1] {
                None => Ok((out.push(None), q1)),
                Some(w) => {
                    if eligible(w, aidx) {
                        let cw = w.ancestor[0].spec_word();
                        if cw < q1.len() && q1[cw as int] is Some {
                            match labor_view(q1[cw as int]->Some_0, w.ancestor[0], mnt, m2w, m2u) {
                                Some(neo) => Ok(
                                    (out.push(Some(fuse_view(w, neo))), q1.update(cw as int, None)),
                                ),
                                None => Err(BabelError::NonTerminatingRule),
                            }
                        } else {
                            Err(BabelError::GhostWord((n - 1) as usize))
                        }
                    } else {
                        Ok((out.push(Some(w)), q1))
                    }
                },
            },
        }
    }
}

/// The second phase of derivation, run over the first `n` ancestor slots in
/// index order: every live slot the first phase did not consume is derived as
/// a brand-new word, tagged with its own coordinate, and appended.
pub open spec fn drv_phase2(
    out: Seq<Option<WordView>>,
    q: Seq<Option<WordView>>,
    aidx: usize,
    mnt: Seq<PatRepl>,
    m2w: Seq<PatRepl>,
    m2u: Seq<PatRepl>,
    n: nat,
) -> Result<Seq<Option<WordView>>, BabelError>
    recommends
        n <= q.len(),
    decreases n,
{
    if n == 0 {
        Ok(out)
    } else {
        match drv_phase2(out, q, aidx, mnt, m2w, m2u, (n - 1) as nat) {
            Err(e) => Err(e),
            Ok(o1) => match q[n - 1] {
                None => Ok(o1),
                Some(aw) => match labor_view(
                    aw,
                    Coordinate::spec_new(aidx, (n - 1) as usize),
                    mnt,
                    m2w,
                    m2u,
                ) {
                    Some(neo) => Ok(o1.push(Some(neo))),
                    None => Err(BabelError::NonTerminatingRule),
                },
            },
        }
    }
}

/// The descendant vocabulary that deriving from ancestor vocabulary `av`
/// produces: phase one over every descendant slot, then phase two over every
/// ancestor slot.
pub open spec fn drv_vocab(
    dv: Seq<Option<WordView>>,
    av: Seq<Option<WordView>>,
    aidx: usize,
    mnt: Seq<PatRepl>,
    m2w: Seq<PatRepl>,
    m2u: Seq<PatRepl>,
) -> Result<Seq<Option<WordView>>, BabelError> {
    match drv_phase1(dv, av, aidx, mnt, m2w, m2u, dv.len()) {
        Err(e) => Err(e),
        Ok((out, q)) => drv_phase2(out, q, aidx, mnt, m2w, m2u, q.len()),
    }
}

/// Every live word recomputed through the two pipelines, over the first `n`
/// slots; tombstones stay.
pub open spec fn revive_views(
    v: Seq<Option<WordView>>,
    m2w: Seq<PatRepl>,
    m2u: Seq<PatRepl>,
    n: nat,
) -> Result<Seq<Option<WordView>>, BabelError>
    recommends
        n <= v.len(),
    decreases n,
{
    if n == 0 {
        Ok(Seq::empty())
    } else {
        match revive_views(v, m2w, m2u, (n - 1) as nat) {
            Err(e) => Err(e),
            Ok(out) => match v[n - 1] {
                None => Ok(out.push(None)),
                Some(w) => match chain_fix(m2w, w.mnemonic) {
                    None => Err(BabelError::NonTerminatingRule),
                    Some(cl) => match chain_fix(m2u, w.mnemonic) {
                        None => Err(BabelError::NonTerminatingRule),
                        Some(up) => Ok(
                            out.push(Some(WordView { conlang: cl, upa: up, ..w })),
                        ),
                    },
                },
            },
        }
    }
}

/// The mathematical content of a language.
#[verifier::ext_equal]
pub ghost struct LanguageView {
    pub name: Seq<char>,
    pub ancestor: Option<usize>,
    pub vocab: Seq<Option<WordView>>,
    pub m2w: Seq<PatRepl>,
    pub m2u: Seq<PatRepl>,
    pub sca: ScaView,
}

/// A named language with its vocabulary and rule collections.
#[derive(Debug)]
pub struct Language {
    name: String,
    ancestor: Option<usize>,
    vocab: Vec<Option<Word>>,
    mnemonic_to_word: Vec<Replace>,
    mnemonic_to_upa: Vec<Replace>,
    mnemonic_transform: SCA,
}

impl View for Language {
    type V = LanguageView;

    closed spec fn view(&self) -> LanguageView {
        LanguageView {
            name: self.name@,
            ancestor: self.ancestor,
            vocab: word_views(self.vocab@),
            m2w: repl_views(self.mnemonic_to_word@),
            m2u: repl_views(self.mnemonic_to_upa@),
            sca: self.mnemonic_transform@,
        }
    }
}

impl Language {
    /// A fresh root language with the given name and nothing else.
    pub fn new(name: &str) -> (r: Language)
        ensures
            r@.name == name@,
            r@.ancestor is None,
            r@.vocab == Seq::<Option<WordView>>::empty(),
            r@.m2w == Seq::<PatRepl>::empty(),
            r@.m2u == Seq::<PatRepl>::empty(),
            r@.sca.cats == Seq::<(char, Seq<char>)>::empty(),
            r@.sca.scs == Seq::<crate::sca::SoundChangeView>::empty(),
    {
        let r = Language {
            name: String::from_str(name),
            ancestor: None,
            vocab: Vec::new(),
            mnemonic_to_word: Vec::new(),
            mnemonic_to_upa: Vec::new(),
            mnemonic_transform: SCA::new(),
        };
        proof {
            assert(r@.vocab =~= Seq::<Option<WordView>>::empty());
            assert(r@.m2w =~= Seq::<PatRepl>::empty());
            assert(r@.m2u =~= Seq::<PatRepl>::empty());
        }
        r
    }

    /// The language's name.
    pub fn name(&self) -> (r: &str)
        ensures
            r@ == self@.name,
    {
        self.name.as_str()
    }

    /// Rename the language.
    pub fn change_name(&mut self, name: &str)
        ensures
            final(self)@ == (LanguageView { name: name@, ..old(self)@ }),
    {
        self.name = String::from_str(name);
    }

    /// The ancestor pointer, if the language was derived.
    pub fn ancestor(&self) -> (r: Option<usize>)
        ensures
            r == self@.ancestor,
    {
        self.ancestor
    }

    /// The sound-change set.
    pub fn mnemonic_transform(&self) -> (r: &SCA)
        ensures
            r@ == self@.sca,
    {
        &self.mnemonic_transform
    }

    /// The mnemonic-to-surface rule at `idx`.
    pub fn m2w_at(&self, idx: usize) -> (r: Result<&Replace, BabelError>)
        ensures
            if idx < self@.m2w.len() {
                r matches Ok(v) && v@ == self@.m2w[idx as int]
            } else {
                r == Err::<&Replace, BabelError>(BabelError::IndexOutOfRange)
            },
    {
        if idx < self.mnemonic_to_word.len() {
            Ok(&self.mnemonic_to_word[idx])
        } else {
            Err(BabelError::IndexOutOfRange)
        }
    }

    /// The mnemonic-to-phonetic rule at `idx`.
    pub fn m2u_at(&self, idx: usize) -> (r: Result<&Replace, BabelError>)
        ensures
            if idx < self@.m2u.len() {
                r matches Ok(v) && v@ == self@.m2u[idx as int]
            } else {
                r == Err::<&Replace, BabelError>(BabelError::IndexOutOfRange)
            },
    {
        if idx < self.mnemonic_to_upa.len() {
            Ok(&self.mnemonic_to_upa[idx])
        } else {
            Err(BabelError::IndexOutOfRange)
        }
    }

    /// The category content keyed by `name`.
    pub fn cat_at(&self, name: char) -> (r: Result<&String, BabelError>)
        ensures
            match cat_find(self@.sca.cats, name) {
                i if i >= 0 => r matches Ok(c) && c@ == self@.sca.cats[i].1,
                _ => r == Err::<&String, BabelError>(BabelError::IndexOutOfRange),
            },
    {
        match self.mnemonic_transform.find_cat(name) {
            Some(i) => Ok(&self.mnemonic_transform.cat()[i].1),
            None => Err(BabelError::IndexOutOfRange),
        }
    }

    /// The declared sound change at `idx`.
    pub fn mnt_at(&self, idx: usize) -> (r: Result<&SoundChange, BabelError>)
        ensures
            if idx < self@.sca.scs.len() {
                r matches Ok(v) && v@ == self@.sca.scs[idx as int]
            } else {
                r == Err::<&SoundChange, BabelError>(BabelError::IndexOutOfRange)
            },
    {
        let list = self.mnemonic_transform.sc();
        if idx < list.len() {
            Ok(&list[idx])
        } else {
            Err(BabelError::IndexOutOfRange)
        }
    }

    /// The word at `idx`: a bad index and a tombstoned slot are distinct
    /// failures.
    pub fn word_at(&self, idx: usize) -> (r: Result<&Word, BabelError>)
        ensures
            if idx < self@.vocab.len() {
                match self@.vocab[idx as int] {
                    Some(w) => r matches Ok(v) && v@ == w,
                    None => r == Err::<&Word, BabelError>(BabelError::InvalidElement),
                }
            } else {
                r == Err::<&Word, BabelError>(BabelError::IndexOutOfRange)
            },
    {
        if idx < self.vocab.len() {
            match &self.vocab[idx] {
                Some(w) => Ok(w),
                None => Err(BabelError::InvalidElement),
            }
        } else {
            Err(BabelError::IndexOutOfRange)
        }
    }

    /// The compiled mnemonic-to-surface pipeline.
    fn make_m2w(&self) -> (r: Vec<Substitute>)
        ensures
            sub_views(r@) == self@.m2w,
    {
        let mut out: Vec<Substitute> = Vec::new();
        let mut i: usize = 0;
        while i < self.mnemonic_to_word.len()
            invariant
                i <= self.mnemonic_to_word@.len(),
                sub_views(out@) == repl_views(self.mnemonic_to_word@).take(i as int),
            decreases self.mnemonic_to_word@.len() - i,
        {
            let ghost pre = sub_views(out@);
            let sub = Substitute::from(&self.mnemonic_to_word[i]);
            let ghost sv = sub@;
            out.push(sub);
            proof {
                assert(sub_views(out@) =~= pre.push(sv));
                assert(repl_views(self.mnemonic_to_word@)[i as int]
                    == self.mnemonic_to_word@[i as int]@);
                assert(sub_views(out@) =~= repl_views(self.mnemonic_to_word@).take(i as int + 1));
            }
            i = i + 1;
        }
        proof {
            assert(repl_views(self.mnemonic_to_word@).take(self.mnemonic_to_word@.len() as int)
                =~= self@.m2w);
        }
        out
    }

    /// The compiled mnemonic-to-phonetic pipeline.
    fn make_m2u(&self) -> (r: Vec<Substitute>)
        ensures
            sub_views(r@) == self@.m2u,
    {
        let mut out: Vec<Substitute> = Vec::new();
        let mut i: usize = 0;
        while i < self.mnemonic_to_upa.len()
            invariant
                i <= self.mnemonic_to_upa@.len(),
                sub_views(out@) == repl_views(self.mnemonic_to_upa@).take(i as int),
            decreases self.mnemonic_to_upa@.len() - i,
        {
            let ghost pre = sub_views(out@);
            let sub = Substitute::from(&self.mnemonic_to_upa[i]);
            let ghost sv = sub@;
            out.push(sub);
            proof {
                assert(sub_views(out@) =~= pre.push(sv));
                assert(repl_views(self.mnemonic_to_upa@)[i as int]
                    == self.mnemonic_to_upa@[i as int]@);
                assert(sub_views(out@) =~= repl_views(self.mnemonic_to_upa@).take(i as int + 1));
            }
            i = i + 1;
        }
        proof {
            assert(repl_views(self.mnemonic_to_upa@).take(self.mnemonic_to_upa@.len() as int)
                =~= self@.m2u);
        }
        out
    }

    /// Morph a word through the current pipelines and append it.
    pub fn add_word(&mut self, word: Word) -> (r: Result<(), BabelError>)
        ensures
            match chain_fix(old(self)@.m2w, word@.mnemonic) {
                None => r == Err::<(), BabelError>(BabelError::NonTerminatingRule) && *final(self)
                    == *old(self),
                Some(cl) => match chain_fix(old(self)@.m2u, word@.mnemonic) {
                    None => r == Err::<(), BabelError>(BabelError::NonTerminatingRule) && *final(self) == *old(self),
                    Some(up) => r is Ok && final(self)@ == (LanguageView {
                        vocab: old(self)@.vocab.push(
                            Some(WordView { conlang: cl, upa: up, ..word@ }),
                        ),
                        ..old(self)@
                    }),
                },
            },
    {
        let m2w = self.make_m2w();
        let m2u = self.make_m2u();
        let mut word = word;
        match word.morph(&m2w, &m2u) {
            Ok(()) => {
                let ghost wv = word@;
                self.vocab.push(Some(word));
                proof {
                    assert(final(self)@.vocab =~= old(self)@.vocab.push(Some(wv)));
                }
                Ok(())
            },
            Err(e) => Err(e),
        }
    }

    /// Append a mnemonic-to-surface rule.
    pub fn add_m2w(&mut self, item: Replace)
        ensures
            final(self)@ == (LanguageView { m2w: old(self)@.m2w.push(item@), ..old(self)@ }),
    {
        let ghost iv = item@;
        self.mnemonic_to_word.push(item);
        proof {
            assert(final(self)@.m2w =~= old(self)@.m2w.push(iv));
        }
    }

    /// Append a mnemonic-to-phonetic rule.
    pub fn add_m2u(&mut self, item: Replace)
        ensures
            final(self)@ == (LanguageView { m2u: old(self)@.m2u.push(item@), ..old(self)@ }),
    {
        let ghost iv = item@;
        self.mnemonic_to_upa.push(item);
        proof {
            assert(final(self)@.m2u =~= old(self)@.m2u.push(iv));
        }
    }

    /// Store or overwrite a category.
    pub fn add_cat(&mut self, name: char, content: &str)
        ensures
            final(self)@.name == old(self)@.name,
            final(self)@.ancestor == old(self)@.ancestor,
            final(self)@.vocab == old(self)@.vocab,
            final(self)@.m2w == old(self)@.m2w,
            final(self)@.m2u == old(self)@.m2u,
            final(self)@.sca.scs == old(self)@.sca.scs,
            match cat_find(old(self)@.sca.cats, name) {
                i if i >= 0 => final(self)@.sca.cats == old(self)@.sca.cats.update(
                    i,
                    (name, content@),
                ),
                _ => final(self)@.sca.cats == old(self)@.sca.cats.push((name, content@)),
            },
    {
        self.mnemonic_transform.add_cat(name, content);
    }

    /// Validate and append a sound change.
    pub fn add_mnt(&mut self, item: SoundChange) -> (r: Result<(), BabelError>)
        ensures
            match crate::sca::spec_compile(old(self)@.sca.cats, item@) {
                Ok(_) => r is Ok && final(self)@ == (LanguageView {
                    sca: ScaView { scs: old(self)@.sca.scs.push(item@), ..old(self)@.sca },
                    ..old(self)@
                }),
                Err(e) => r == Err::<(), BabelError>(e) && *final(self) == *old(self),
            },
    {
        self.mnemonic_transform.add_sc(item)
    }

    /// Overwrite the mnemonic-to-surface rule at `idx`.
    pub fn alt_m2w(&mut self, idx: usize, item: Replace) -> (r: Result<(), BabelError>)
        ensures
            if idx < old(self)@.m2w.len() {
                r is Ok && final(self)@ == (LanguageView {
                    m2w: old(self)@.m2w.update(idx as int, item@),
                    ..old(self)@
                })
            } else {
                r == Err::<(), BabelError>(BabelError::IndexOutOfRange) && *final(self) == *old(
                    self,
                )
            },
    {
        if idx < self.mnemonic_to_word.len() {
            let ghost iv = item@;
            self.mnemonic_to_word.set(idx, item);
            proof {
                assert(final(self)@.m2w =~= old(self)@.m2w.update(idx as int, iv));
            }
            Ok(())
        } else {
            Err(BabelError::IndexOutOfRange)
        }
    }

    /// Overwrite the mnemonic-to-phonetic rule at `idx`.
    pub fn alt_m2u(&mut self, idx: usize, item: Replace) -> (r: Result<(), BabelError>)
        ensures
            if idx < old(self)@.m2u.len() {
                r is Ok && final(self)@ == (LanguageView {
                    m2u: old(self)@.m2u.update(idx as int, item@),
                    ..old(self)@
                })
            } else {
                r == Err::<(), BabelError>(BabelError::IndexOutOfRange) && *final(self) == *old(
                    self,
                )
            },
    {
        if idx < self.mnemonic_to_upa.len() {
            let ghost iv = item@;
            self.mnemonic_to_upa.set(idx, item);
            proof {
                assert(final(self)@.m2u =~= old(self)@.m2u.update(idx as int, iv));
            }
            Ok(())
        } else {
            Err(BabelError::IndexOutOfRange)
        }
    }

    /// Validate and overwrite the sound change at `idx`.
    pub fn alt_mnt(&mut self, idx: usize, item: SoundChange) -> (r: Result<(), BabelError>)
        ensures
            match crate::sca::spec_compile(old(self)@.sca.cats, item@) {
                Err(e) => r == Err::<(), BabelError>(e) && *final(self) == *old(self),
                Ok(_) => {
                    if idx < old(self)@.sca.scs.len() {
                        r is Ok && final(self)@ == (LanguageView {
                            sca: ScaView {
                                scs: old(self)@.sca.scs.update(idx as int, item@),
                                ..old(self)@.sca
                            },
                            ..old(self)@
                        })
                    } else {
                        r == Err::<(), BabelError>(BabelError::IndexOutOfRange) && *final(self)
                            == *old(self)
                    }
                },
            },
    {
        self.mnemonic_transform.alt_sc(idx, item)
    }

    /// Morph `item` through the pipelines, keep the old word's lineage, and
    /// overwrite the slot at `idx`.
    pub fn alt_word(&mut self, idx: usize, item: Word) -> (r: Result<(), BabelError>)
        ensures
            match chain_fix(old(self)@.m2w, item@.mnemonic) {
                None => r == Err::<(), BabelError>(BabelError::NonTerminatingRule) && *final(self)
                    == *old(self),
                Some(cl) => match chain_fix(old(self)@.m2u, item@.mnemonic) {
                    None => r == Err::<(), BabelError>(BabelError::NonTerminatingRule)
                        && *final(self) == *old(self),
                    Some(up) => {
                        if idx >= old(self)@.vocab.len() {
                            r == Err::<(), BabelError>(BabelError::IndexOutOfRange) && *final(self)
                                == *old(self)
                        } else {
                            match old(self)@.vocab[idx as int] {
                                None => r == Err::<(), BabelError>(BabelError::InvalidElement)
                                    && *final(self) == *old(self),
                                Some(prev) => r is Ok && final(self)@ == (LanguageView {
                                    vocab: old(self)@.vocab.update(
                                        idx as int,
                                        Some(
                                            WordView {
                                                conlang: cl,
                                                upa: up,
                                                ancestor: prev.ancestor,
                                                ..item@
                                            },
                                        ),
                                    ),
                                    ..old(self)@
                                }),
                            }
                        }
                    },
                },
            },
    {
        let m2w = self.make_m2w();
        let m2u = self.make_m2u();
        let mut item = item;
        match item.morph(&m2w, &m2u) {
            Ok(()) => {},
            Err(e) => {
                return Err(e);
            },
        }
        if idx >= self.vocab.len() {
            return Err(BabelError::IndexOutOfRange);
        }
        let old_ancestor: Vec<Coordinate> = match &self.vocab[idx] {
            Some(w) => {
                let mut list: Vec<Coordinate> = Vec::new();
                let anc = w.ancestor();
                let mut i: usize = 0;
                while i < anc.len()
                    invariant
                        i <= anc@.len(),
                        list@ == anc@.take(i as int),
                    decreases anc@.len() - i,
                {
                    list.push(anc[i]);
                    proof {
                        assert(anc@.take(i as int + 1) =~= anc@.take(i as int).push(
                            anc@[i as int],
                        ));
                    }
                    i = i + 1;
                }
                proof {
                    assert(anc@.take(anc@.len() as int) =~= anc@);
                }
                list
            },
            None => {
                return Err(BabelError::InvalidElement);
            },
        };
        item.set_ancestor(old_ancestor.as_slice());
        let ghost iv = item@;
        self.vocab.set(idx, Some(item));
        proof {
            assert(final(self)@.vocab =~= old(self)@.vocab.update(idx as int, Some(iv)));
        }
        Ok(())
    }

    /// The indices of the mnemonic-to-surface rules, in order.
    pub fn enum_m2w(&self) -> (r: Vec<usize>)
        ensures
            r@.len() == self@.m2w.len(),
            forall|j: int| 0 <= j < r@.len() ==> r@[j] == j,
    {
        iota(self.mnemonic_to_word.len())
    }

    /// The indices of the mnemonic-to-phonetic rules, in order.
    pub fn enum_m2u(&self) -> (r: Vec<usize>)
        ensures
            r@.len() == self@.m2u.len(),
            forall|j: int| 0 <= j < r@.len() ==> r@[j] == j,
    {
        iota(self.mnemonic_to_upa.len())
    }

    /// The indices of the category-table entries, in table order.
    pub fn enum_cat(&self) -> (r: Vec<usize>)
        ensures
            r@.len() == self@.sca.cats.len(),
            forall|j: int| 0 <= j < r@.len() ==> r@[j] == j,
    {
        iota(self.mnemonic_transform.cat().len())
    }

    /// The indices of the declared sound changes, in list order.
    pub fn enum_mnt(&self) -> (r: Vec<usize>)
        ensures
            r@.len() == self@.sca.scs.len(),
            forall|j: int| 0 <= j < r@.len() ==> r@[j] == j,
    {
        iota(self.mnemonic_transform.sc().len())
    }

    /// The indices of the live vocabulary slots, in increasing order,
    /// skipping tombstones while preserving original indices.
    pub fn enum_word(&self) -> (r: Vec<usize>)
        ensures
            forall|j: int|
                0 <= j < r@.len() ==> r@[j] < self@.vocab.len() && self@.vocab[r@[j] as int]
                    is Some,
            forall|a: int, b: int| 0 <= a < b < r@.len() ==> r@[a] < r@[b],
            forall|k: int|
                0 <= k < self@.vocab.len() && self@.vocab[k] is Some ==> exists|j: int|
                    0 <= j < r@.len() && r@[j] == k,
    {
        let mut out: Vec<usize> = Vec::new();
        let mut i: usize = 0;
        while i < self.vocab.len()
            invariant
                i <= self.vocab@.len(),
                self@.vocab.len() == self.vocab@.len(),
                forall|j: int|
                    0 <= j < out@.len() ==> out@[j] < i && self@.vocab[out@[j] as int] is Some,
                forall|a: int, b: int| 0 <= a < b < out@.len() ==> out@[a] < out@[b],
                forall|k: int|
                    0 <= k < i && self@.vocab[k] is Some ==> exists|j: int|
                        0 <= j < out@.len() && out@[j] == k,
            decreases self.vocab@.len() - i,
        {
            if self.vocab[i].is_some() {
                let ghost pre = out@;
                out.push(i);
                proof {
                    assert(out@[out@.len() - 1] == i);
                    assert(forall|k: int|
                        0 <= k < i && self@.vocab[k] is Some ==> exists|j: int|
                            0 <= j < out@.len() && out@[j] == k) by {
                        assert(forall|j: int| 0 <= j < pre.len() ==> out@[j] == pre[j]);
                    }
                }
            }
            i = i + 1;
        }
        out
    }

    /// Replace the lineage coordinates of the word at `idx`.
    pub fn etym_word(&mut self, idx: usize, ancestors: &[Coordinate]) -> (r: Result<
        (),
        BabelError,
    >)
        ensures
            if idx >= old(self)@.vocab.len() {
                r == Err::<(), BabelError>(BabelError::IndexOutOfRange) && *final(self) == *old(
                    self,
                )
            } else {
                match old(self)@.vocab[idx as int] {
                    None => r == Err::<(), BabelError>(BabelError::InvalidElement) && *final(self)
                        == *old(self),
                    Some(w) => r is Ok && final(self)@ == (LanguageView {
                        vocab: old(self)@.vocab.update(
                            idx as int,
                            Some(WordView { ancestor: ancestors@, ..w }),
                        ),
                        ..old(self)@
                    }),
                }
            },
    {
        if idx >= self.vocab.len() {
            return Err(BabelError::IndexOutOfRange);
        }
        let mut word = match &self.vocab[idx] {
            Some(w) => w.duplicate(),
            None => {
                return Err(BabelError::InvalidElement);
            },
        };
        word.set_ancestor(ancestors);
        let ghost wv = word@;
        self.vocab.set(idx, Some(word));
        proof {
            assert(final(self)@.vocab =~= old(self)@.vocab.update(idx as int, Some(wv)));
        }
        Ok(())
    }

    /// Insert a mnemonic-to-surface rule at `idx`, shifting later rules.
    pub fn ins_m2w(&mut self, idx: usize, item: Replace) -> (r: Result<(), BabelError>)
        ensures
            if idx <= old(self)@.m2w.len() {
                r is Ok && final(self)@ == (LanguageView {
                    m2w: old(self)@.m2w.insert(idx as int, item@),
                    ..old(self)@
                })
            } else {
                r == Err::<(), BabelError>(BabelError::IndexOutOfRange) && *final(self) == *old(
                    self,
                )
            },
    {
        if idx <= self.mnemonic_to_word.len() {
            let ghost iv = item@;
            self.mnemonic_to_word.insert(idx, item);
            proof {
                assert(final(self)@.m2w =~= old(self)@.m2w.insert(idx as int, iv));
            }
            Ok(())
        } else {
            Err(BabelError::IndexOutOfRange)
        }
    }

    /// Insert a mnemonic-to-phonetic rule at `idx`, shifting later rules.
    pub fn ins_m2u(&mut self, idx: usize, item: Replace) -> (r: Result<(), BabelError>)
        ensures
            if idx <= old(self)@.m2u.len() {
                r is Ok && final(self)@ == (LanguageView {
                    m2u: old(self)@.m2u.insert(idx as int, item@),
                    ..old(self)@
                })
            } else {
                r == Err::<(), BabelError>(BabelError::IndexOutOfRange) && *final(self) == *old(
                    self,
                )
            },
    {
        if idx <= self.mnemonic_to_upa.len() {
            let ghost iv = item@;
            self.mnemonic_to_upa.insert(idx, item);
            proof {
                assert(final(self)@.m2u =~= old(self)@.m2u.insert(idx as int, iv));
            }
            Ok(())
        } else {
            Err(BabelError::IndexOutOfRange)
        }
    }

    /// Validate and insert a sound change at `idx`, shifting later rules.
    pub fn ins_mnt(&mut self, idx: usize, item: SoundChange) -> (r: Result<(), BabelError>)
        ensures
            match crate::sca::spec_compile(old(self)@.sca.cats, item@) {
                Err(e) => r == Err::<(), BabelError>(e) && *final(self) == *old(self),
                Ok(_) => {
                    if idx <= old(self)@.sca.scs.len() {
                        r is Ok && final(self)@ == (LanguageView {
                            sca: ScaView {
                                scs: old(self)@.sca.scs.insert(idx as int, item@),
                                ..old(self)@.sca
                            },
                            ..old(self)@
                        })
                    } else {
                        r == Err::<(), BabelError>(BabelError::IndexOutOfRange) && *final(self)
                            == *old(self)
                    }
                },
            },
    {
        self.mnemonic_transform.ins_sc(idx, item)
    }

    /// Recompute the surface and phonetic fields of every live word from its
    /// mnemonic; on a non-terminating rule nothing is changed.
    pub fn revive(&mut self) -> (r: Result<(), BabelError>)
        ensures
            match revive_views(
                old(self)@.vocab,
                old(self)@.m2w,
                old(self)@.m2u,
                old(self)@.vocab.len(),
            ) {
                Ok(v) => r is Ok && final(self)@ == (LanguageView { vocab: v, ..old(self)@ }),
                Err(e) => r == Err::<(), BabelError>(e) && *final(self) == *old(self),
            },
    {
        let m2w = self.make_m2w();
        let m2u = self.make_m2u();
        let ghost dv = self@.vocab;
        let mut neo: Vec<Option<Word>> = Vec::new();
        let mut i: usize = 0;
        proof {
            assert(word_views(neo@) =~= Seq::<Option<WordView>>::empty());
        }
        while i < self.vocab.len()
            invariant
                i <= self.vocab@.len(),
                *self == *old(self),
                dv == self@.vocab,
                dv.len() == self.vocab@.len(),
                sub_views(m2w@) == old(self)@.m2w,
                sub_views(m2u@) == old(self)@.m2u,
                revive_views(dv, old(self)@.m2w, old(self)@.m2u, i as nat) == Ok::<
                    Seq<Option<WordView>>,
                    BabelError,
                >(word_views(neo@)),
            decreases self.vocab@.len() - i,
        {
            let ghost pre = word_views(neo@);
            match &self.vocab[i] {
                None => {
                    neo.push(None);
                    proof {
                        assert(word_views(neo@) =~= pre.push(None));
                    }
                },
                Some(w) => {
                    let mut fresh = w.duplicate();
                    match fresh.morph(&m2w, &m2u) {
                        Ok(()) => {
                            let ghost fv = fresh@;
                            neo.push(Some(fresh));
                            proof {
                                assert(word_views(neo@) =~= pre.push(Some(fv)));
                            }
                        },
                        Err(e) => {
                            proof {
                                lemma_revive_err(
                                    dv,
                                    old(self)@.m2w,
                                    old(self)@.m2u,
                                    i as nat + 1,
                                    dv.len(),
                                );
                            }
                            return Err(e);
                        },
                    }
                },
            }
            i = i + 1;
        }
        self.vocab = neo;
        Ok(())
    }

    /// Remove the mnemonic-to-surface rule at `idx`, shifting later rules.
    pub fn rm_m2w(&mut self, idx: usize) -> (r: Result<(), BabelError>)
        ensures
            if idx < old(self)@.m2w.len() {
                r is Ok && final(self)@ == (LanguageView {
                    m2w: old(self)@.m2w.remove(idx as int),
                    ..old(self)@
                })
            } else {
                r == Err::<(), BabelError>(BabelError::IndexOutOfRange) && *final(self) == *old(
                    self,
                )
            },
    {
        if idx < self.mnemonic_to_word.len() {
            self.mnemonic_to_word.remove(idx);
            proof {
                assert(final(self)@.m2w =~= old(self)@.m2w.remove(idx as int));
            }
            Ok(())
        } else {
            Err(BabelError::IndexOutOfRange)
        }
    }

    /// Remove the mnemonic-to-phonetic rule at `idx`, shifting later rules.
    pub fn rm_m2u(&mut self, idx: usize) -> (r: Result<(), BabelError>)
        ensures
            if idx < old(self)@.m2u.len() {
                r is Ok && final(self)@ == (LanguageView {
                    m2u: old(self)@.m2u.remove(idx as int),
                    ..old(self)@
                })
            } else {
                r == Err::<(), BabelError>(BabelError::IndexOutOfRange) && *final(self) == *old(
                    self,
                )
            },
    {
        if idx < self.mnemonic_to_upa.len() {
            self.mnemonic_to_upa.remove(idx);
            proof {
                assert(final(self)@.m2u =~= old(self)@.m2u.remove(idx as int));
            }
            Ok(())
        } else {
            Err(BabelError::IndexOutOfRange)
        }
    }

    /// Remove the category keyed by `name` and hand its content back.
    pub fn rm_cat(&mut self, name: char) -> (r: Result<String, BabelError>)
        ensures
            final(self)@.name == old(self)@.name,
            final(self)@.ancestor == old(self)@.ancestor,
            final(self)@.vocab == old(self)@.vocab,
            final(self)@.m2w == old(self)@.m2w,
            final(self)@.m2u == old(self)@.m2u,
            final(self)@.sca.scs == old(self)@.sca.scs,
            match cat_find(old(self)@.sca.cats, name) {
                i if i >= 0 => {
                    &&& r matches Ok(c) && c@ == old(self)@.sca.cats[i].1
                    &&& final(self)@.sca.cats == old(self)@.sca.cats.remove(i)
                },
                _ => r == Err::<String, BabelError>(BabelError::IndexOutOfRange) && *final(self)
                    == *old(self),
            },
    {
        self.mnemonic_transform.rm_cat(name)
    }

    /// Remove the sound change at `idx`, shifting later rules.
    pub fn rm_mnt(&mut self, idx: usize) -> (r: Result<(), BabelError>)
        ensures
            if idx < old(self)@.sca.scs.len() {
                r is Ok && final(self)@ == (LanguageView {
                    sca: ScaView {
                        scs: old(self)@.sca.scs.remove(idx as int),
                        ..old(self)@.sca
                    },
                    ..old(self)@
                })
            } else {
                r == Err::<(), BabelError>(BabelError::IndexOutOfRange) && *final(self) == *old(
                    self,
                )
            },
    {
        self.mnemonic_transform.rm_sc(idx)
    }

    /// Tombstone the word at `idx`; indices of later words do not shift.
    pub fn rm_word(&mut self, idx: usize) -> (r: Result<(), BabelError>)
        ensures
            if idx < old(self)@.vocab.len() {
                r is Ok && final(self)@ == (LanguageView {
                    vocab: old(self)@.vocab.update(idx as int, None),
                    ..old(self)@
                })
            } else {
                r == Err::<(), BabelError>(BabelError::IndexOutOfRange) && *final(self) == *old(
                    self,
                )
            },
    {
        if idx < self.vocab.len() {
            self.vocab.set(idx, None);
            proof {
                assert(final(self)@.vocab =~= old(self)@.vocab.update(idx as int, None));
            }
            Ok(())
        } else {
            Err(BabelError::IndexOutOfRange)
        }
    }

    /// Morph `item` through the pipelines and overwrite the slot at `idx`,
    /// whether or not it is live; lineage comes from `item` itself.
    pub fn rst_word(&mut self, idx: usize, item: Word) -> (r: Result<(), BabelError>)
        ensures
            match chain_fix(old(self)@.m2w, item@.mnemonic) {
                None => r == Err::<(), BabelError>(BabelError::NonTerminatingRule) && *final(self)
                    == *old(self),
                Some(cl) => match chain_fix(old(self)@.m2u, item@.mnemonic) {
                    None => r == Err::<(), BabelError>(BabelError::NonTerminatingRule)
                        && *final(self) == *old(self),
                    Some(up) => {
                        if idx < old(self)@.vocab.len() {
                            r is Ok && final(self)@ == (LanguageView {
                                vocab: old(self)@.vocab.update(
                                    idx as int,
                                    Some(WordView { conlang: cl, upa: up, ..item@ }),
                                ),
                                ..old(self)@
                            })
                        } else {
                            r == Err::<(), BabelError>(BabelError::IndexOutOfRange) && *final(self)
                                == *old(self)
                        }
                    },
                },
            },
    {
        let m2w = self.make_m2w();
        let m2u = self.make_m2u();
        let mut item = item;
        match item.morph(&m2w, &m2u) {
            Ok(()) => {},
            Err(e) => {
                return Err(e);
            },
        }
        if idx < self.vocab.len() {
            let ghost iv = item@;
            self.vocab.set(idx, Some(item));
            proof {
                assert(final(self)@.vocab =~= old(self)@.vocab.update(idx as int, Some(iv)));
            }
            Ok(())
        } else {
            Err(BabelError::IndexOutOfRange)
        }
    }

    /// Derive this language's vocabulary from `ancestor`: set the ancestor
    /// pointer, refresh every word that inherits from exactly one ancestor
    /// word, and append a new word for every ancestor word not yet inherited.
    /// On any failure nothing is changed.
    pub fn drv(&mut self, ancestor_idx: usize, ancestor: &Language) -> (r: Result<
        (),
        BabelError,
    >)
        ensures
            match spec_compile_all(old(self)@.sca.cats, old(self)@.sca.scs) {
                Err(e) => r == Err::<(), BabelError>(e) && *final(self) == *old(self),
                Ok(mnt) => match drv_vocab(
                    old(self)@.vocab,
                    ancestor@.vocab,
                    ancestor_idx,
                    mnt,
                    old(self)@.m2w,
                    old(self)@.m2u,
                ) {
                    Ok(v) => r is Ok && final(self)@ == (LanguageView {
                        ancestor: Some(ancestor_idx),
                        vocab: v,
                        ..old(self)@
                    }),
                    Err(e) => r == Err::<(), BabelError>(e) && *final(self) == *old(self),
                },
            },
    {
        let m2w = self.make_m2w();
        let m2u = self.make_m2u();
        let mnt = match self.mnemonic_transform.compile_all() {
            Ok(v) => v,
            Err(e) => {
                return Err(e);
            },
        };
        let ghost mntv = sub_views(mnt@);
        let ghost dv = self@.vocab;
        let ghost av = ancestor@.vocab;
        let mut queue = crate::word::duplicate_vocab(&ancestor.vocab);
        let mut neo: Vec<Option<Word>> = Vec::new();
        let mut i: usize = 0;
        proof {
            assert(word_views(neo@) =~= Seq::<Option<WordView>>::empty());
        }
        while i < self.vocab.len()
            invariant
                i <= self.vocab@.len(),
                *self == *old(self),
                dv == self@.vocab,
                av == ancestor@.vocab,
                dv.len() == self.vocab@.len(),
                sub_views(m2w@) == old(self)@.m2w,
                sub_views(m2u@) == old(self)@.m2u,
                sub_views(mnt@) == mntv,
                spec_compile_all(old(self)@.sca.cats, old(self)@.sca.scs) == Ok::<
                    Seq<PatRepl>,
                    BabelError,
                >(mntv),
                drv_phase1(dv, av, ancestor_idx, mntv, old(self)@.m2w, old(self)@.m2u, i as nat)
                    == Ok::<(Seq<Option<WordView>>, Seq<Option<WordView>>), BabelError>(
                    (word_views(neo@), word_views(queue@)),
                ),
            decreases self.vocab@.len() - i,
        {
            let ghost pre = word_views(neo@);
            let ghost qpre = word_views(queue@);
            match &self.vocab[i] {
                None => {
                    proof {
                        assert(dv[i as int] is None);
                    }
                    neo.push(None);
                    proof {
                        assert(word_views(neo@) =~= pre.push(None));
                    }
                },
                Some(w) => {
                    proof {
                        assert(dv[i as int] == Some(w@));
                        assert(word_views(queue@).len() == queue@.len());
                    }
                    let anc = w.ancestor();
                    if anc.len() == 1 && anc[0].lang() == ancestor_idx {
                        proof {
                            assert(eligible(w@, ancestor_idx));
                        }
                        let cw = anc[0].word();
                        if cw >= queue.len() {
                            proof {
                                lemma_drv_phase1_err(
                                    dv,
                                    av,
                                    ancestor_idx,
                                    mntv,
                                    old(self)@.m2w,
                                    old(self)@.m2u,
                                    i as nat + 1,
                                    dv.len(),
                                );
                            }
                            return Err(BabelError::GhostWord(i));
                        }
                        let neo_word = match &queue[cw] {
                            Some(aw) => {
                                proof {
                                    assert(word_views(queue@)[cw as int] == Some(aw@));
                                }
                                match aw.labor(anc[0], &mnt, &m2w, &m2u) {
                                    Ok(v) => v,
                                    Err(e) => {
                                        proof {
                                            lemma_drv_phase1_err(
                                                dv,
                                                av,
                                                ancestor_idx,
                                                mntv,
                                                old(self)@.m2w,
                                                old(self)@.m2u,
                                                i as nat + 1,
                                                dv.len(),
                                            );
                                        }
                                        return Err(e);
                                    },
                                }
                            },
                            None => {
                                proof {
                                    assert(word_views(queue@)[cw as int] is None);
                                    lemma_drv_phase1_err(
                                        dv,
                                        av,
                                        ancestor_idx,
                                        mntv,
                                        old(self)@.m2w,
                                        old(self)@.m2u,
                                        i as nat + 1,
                                        dv.len(),
                                    );
                                }
                                return Err(BabelError::GhostWord(i));
                            },
                        };
                        let mut fused = w.duplicate();
                        fused.fuse(neo_word);
                        let ghost fv = fused@;
                        neo.push(Some(fused));
                        queue.set(cw, None);
                        proof {
                            assert(word_views(neo@) =~= pre.push(Some(fv)));
                            assert(word_views(queue@) =~= qpre.update(cw as int, None));
                        }
                    } else {
                        let copy = w.duplicate();
                        let ghost cv = copy@;
                        neo.push(Some(copy));
                        proof {
                            assert(word_views(neo@) =~= pre.push(Some(cv)));
                        }
                    }
                },
            }
            i = i + 1;
        }
        let ghost out1 = word_views(neo@);
        let ghost q1 = word_views(queue@);
        let mut j: usize = 0;
        while j < queue.len()
            invariant
                j <= queue@.len(),
                *self == *old(self),
                sub_views(m2w@) == old(self)@.m2w,
                sub_views(m2u@) == old(self)@.m2u,
                sub_views(mnt@) == mntv,
                spec_compile_all(old(self)@.sca.cats, old(self)@.sca.scs) == Ok::<
                    Seq<PatRepl>,
                    BabelError,
                >(mntv),
                drv_phase1(
                    old(self)@.vocab,
                    ancestor@.vocab,
                    ancestor_idx,
                    mntv,
                    old(self)@.m2w,
                    old(self)@.m2u,
                    old(self)@.vocab.len(),
                ) == Ok::<(Seq<Option<WordView>>, Seq<Option<WordView>>), BabelError>((out1, q1)),
                word_views(queue@) == q1,
                q1.len() == queue@.len(),
                drv_phase2(out1, q1, ancestor_idx, mntv, old(self)@.m2w, old(self)@.m2u, j as nat)
                    == Ok::<Seq<Option<WordView>>, BabelError>(word_views(neo@)),
            decreases queue@.len() - j,
        {
            let ghost pre = word_views(neo@);
            match &queue[j] {
                None => {
                    proof {
                        assert(q1[j as int] is None);
                    }
                },
                Some(aw) => {
                    proof {
                        assert(q1[j as int] == Some(aw@));
                    }
                    let coord = Coordinate::new(ancestor_idx, j);
                    match aw.labor(coord, &mnt, &m2w, &m2u) {
                        Ok(neo_word) => {
                            let ghost nv = neo_word@;
                            neo.push(Some(neo_word));
                            proof {
                                assert(word_views(neo@) =~= pre.push(Some(nv)));
                            }
                        },
                        Err(e) => {
                            proof {
                                lemma_drv_phase2_err(
                                    out1,
                                    q1,
                                    ancestor_idx,
                                    mntv,
                                    old(self)@.m2w,
                                    old(self)@.m2u,
                                    j as nat + 1,
                                    q1.len(),
                                );
                            }
                            return Err(e);
                        },
                    }
                },
            }
            j = j + 1;
        }
        let ghost outv = word_views(neo@);
        self.ancestor = Some(ancestor_idx);
        self.vocab = neo;
        proof {
            assert(final(self)@ =~= (LanguageView {
                ancestor: Some(ancestor_idx),
                vocab: outv,
                ..old(self)@
            }));
        }
        Ok(())
    }

    /// A language rebuilt wholesale, as persistence hands it back.
    pub fn assemble(
        name: &str,
        ancestor: Option<usize>,
        vocab: Vec<Option<Word>>,
        m2w: Vec<Replace>,
        m2u: Vec<Replace>,
        sca: SCA,
    ) -> (r: Language)
        ensures
            r@ == (LanguageView {
                name: name@,
                ancestor: ancestor,
                vocab: word_views(vocab@),
                m2w: repl_views(m2w@),
                m2u: repl_views(m2u@),
                sca: sca@,
            }),
    {
        Language {
            name: String::from_str(name),
            ancestor,
            vocab,
            mnemonic_to_word: m2w,
            mnemonic_to_upa: m2u,
            mnemonic_transform: sca,
        }
    }

    /// An identical copy.
    pub fn duplicate(&self) -> (r: Language)
        ensures
            r@ == self@,
    {
        let mut m2w: Vec<Replace> = Vec::new();
        let mut i: usize = 0;
        while i < self.mnemonic_to_word.len()
            invariant
                i <= self.mnemonic_to_word@.len(),
                repl_views(m2w@) == repl_views(self.mnemonic_to_word@).take(i as int),
            decreases self.mnemonic_to_word@.len() - i,
        {
            let ghost pre = repl_views(m2w@);
            let item = self.mnemonic_to_word[i].duplicate();
            let ghost iv = item@;
            m2w.push(item);
            proof {
                assert(repl_views(m2w@) =~= pre.push(iv));
                assert(repl_views(self.mnemonic_to_word@)[i as int]
                    == self.mnemonic_to_word@[i as int]@);
                assert(repl_views(m2w@) =~= repl_views(self.mnemonic_to_word@).take(i as int + 1));
            }
            i = i + 1;
        }
        let mut m2u: Vec<Replace> = Vec::new();
        let mut k: usize = 0;
        while k < self.mnemonic_to_upa.len()
            invariant
                k <= self.mnemonic_to_upa@.len(),
                repl_views(m2u@) == repl_views(self.mnemonic_to_upa@).take(k as int),
            decreases self.mnemonic_to_upa@.len() - k,
        {
            let ghost pre = repl_views(m2u@);
            let item = self.mnemonic_to_upa[k].duplicate();
            let ghost iv = item@;
            m2u.push(item);
            proof {
                assert(repl_views(m2u@) =~= pre.push(iv));
                assert(repl_views(self.mnemonic_to_upa@)[k as int]
                    == self.mnemonic_to_upa@[k as int]@);
                assert(repl_views(m2u@) =~= repl_views(self.mnemonic_to_upa@).take(k as int + 1));
            }
            k = k + 1;
        }
        let r = Language {
            name: self.name.clone(),
            ancestor: self.ancestor,
            vocab: crate::word::duplicate_vocab(&self.vocab),
            mnemonic_to_word: m2w,
            mnemonic_to_upa: m2u,
            mnemonic_transform: self.mnemonic_transform.duplicate(),
        };
        proof {
            assert(repl_views(self.mnemonic_to_word@).take(self.mnemonic_to_word@.len() as int)
                =~= self@.m2w);
            assert(repl_views(self.mnemonic_to_upa@).take(self.mnemonic_to_upa@.len() as int)
                =~= self@.m2u);
            assert(r@ =~= self@);
        }
        r
    }
}

/// The indices 0 up to `n`, in order.
fn iota(n: usize) -> (r: Vec<usize>)
    ensures
        r@.len() == n,
        forall|j: int| 0 <= j < n ==> r@[j] == j,
{
    let mut out: Vec<usize> = Vec::new();
    let mut i: usize = 0;
    while i < n
        invariant
            i <= n,
            out@.len() == i,
            forall|j: int| 0 <= j < i ==> out@[j] == j,
        decreases n - i,
    {
        out.push(i);
        i = i + 1;
    }
    out
}

/// An error met at one slot decides the whole first phase.
proof fn lemma_drv_phase1_err(
    dv: Seq<Option<WordView>>,
    q: Seq<Option<WordView>>,
    aidx: usize,
    mnt: Seq<PatRepl>,
    m2w: Seq<PatRepl>,
    m2u: Seq<PatRepl>,
    m: nat,
    k: nat,
)
    requires
        m <= k,
        drv_phase1(dv, q, aidx, mnt, m2w, m2u, m) is Err,
    ensures
        drv_phase1(dv, q, aidx, mnt, m2w, m2u, k) == drv_phase1(dv, q, aidx, mnt, m2w, m2u, m),
    decreases k,
{
    if k > m {
        lemma_drv_phase1_err(dv, q, aidx, mnt, m2w, m2u, m, (k - 1) as nat);
    }
}

/// An error met at one slot decides the whole second phase.
proof fn lemma_drv_phase2_err(
    out: Seq<Option<WordView>>,
    q: Seq<Option<WordView>>,
    aidx: usize,
    mnt: Seq<PatRepl>,
    m2w: Seq<PatRepl>,
    m2u: Seq<PatRepl>,
    m: nat,
    k: nat,
)
    requires
        m <= k,
        drv_phase2(out, q, aidx, mnt, m2w, m2u, m) is Err,
    ensures
        drv_phase2(out, q, aidx, mnt, m2w, m2u, k) == drv_phase2(out, q, aidx, mnt, m2w, m2u, m),
    decreases k,
{
    if k > m {
        lemma_drv_phase2_err(out, q, aidx, mnt, m2w, m2u, m, (k - 1) as nat);
    }
}

/// An error met at one slot decides the whole recomputation.
proof fn lemma_revive_err(
    v: Seq<Option<WordView>>,
    m2w: Seq<PatRepl>,
    m2u: Seq<PatRepl>,
    m: nat,
    k: nat,
)
    requires
        m <= k,
        revive_views(v, m2w, m2u, m) is Err,
    ensures
        revive_views(v, m2w, m2u, k) == revive_views(v, m2w, m2u, m),
    decreases k,
{
    if k > m {
        lemma_revive_err(v, m2w, m2u, m, (k - 1) as nat);
    }
}

/// Gloss, part-of-speech reference and note agree.
pub open spec fn authored_eq(a: WordView, b: WordView) -> bool {
    &&& a.natlang == b.natlang
    &&& a.pos == b.pos
    &&& a.info == b.info
}

/// What a successful first phase guarantees, slot by slot: tombstones and
/// ineligible words are kept as they are; an eligible word keeps its lineage
/// and authored fields and has its computed fields rebuilt from its ancestor
/// word; the queue only ever loses entries, never changes one.
pub proof fn lemma_phase1_props(
    dv: Seq<Option<WordView>>,
    q: Seq<Option<WordView>>,
    aidx: usize,
    mnt: Seq<PatRepl>,
    m2w: Seq<PatRepl>,
    m2u: Seq<PatRepl>,
    n: nat,
)
    requires
        n <= dv.len(),
        drv_phase1(dv, q, aidx, mnt, m2w, m2u, n) is Ok,
    ensures
        ({
            let out = drv_phase1(dv, q, aidx, mnt, m2w, m2u, n)->Ok_0.0;
            let qn = drv_phase1(dv, q, aidx, mnt, m2w, m2u, n)->Ok_0.1;
            &&& out.len() == n
            &&& qn.len() == q.len()
            &&& forall|k: int| 0 <= k < q.len() && #[trigger] qn[k] is Some ==> qn[k] == q[k]
            &&& forall|i: int|
                0 <= i < n ==> match #[trigger] dv[i] {
                    None => out[i] is None,
                    Some(w) => out[i] matches Some(w2) && {
                        &&& w2.ancestor == w.ancestor
                        &&& authored_eq(w2, w)
                        &&& (!eligible(w, aidx) ==> w2 == w)
                        &&& (eligible(w, aidx) ==> {
                            let cw = w.ancestor[0].spec_word();
                            &&& cw < q.len()
                            &&& q[cw as int] is Some
                            &&& chain_fix(mnt, q[cw as int]->Some_0.mnemonic) == Some(w2.mnemonic)
                            &&& chain_fix(m2w, w2.mnemonic) == Some(w2.conlang)
                            &&& chain_fix(m2u, w2.mnemonic) == Some(w2.upa)
                        })
                    },
                }
        }),
    decreases n,
{
    if n > 0 {
        lemma_phase1_props(dv, q, aidx, mnt, m2w, m2u, (n - 1) as nat);
    }
}

/// What a successful second phase guarantees: the first-phase output is kept
/// as a prefix, and every appended word is the fresh derivation of a live
/// queue slot, tagged with exactly that slot's coordinate and carrying the
/// ancestor word's authored fields.
pub proof fn lemma_phase2_props(
    out: Seq<Option<WordView>>,
    q: Seq<Option<WordView>>,
    aidx: usize,
    mnt: Seq<PatRepl>,
    m2w: Seq<PatRepl>,
    m2u: Seq<PatRepl>,
    n: nat,
)
    requires
        n <= q.len(),
        q.len() <= usize::MAX,
        drv_phase2(out, q, aidx, mnt, m2w, m2u, n) is Ok,
    ensures
        ({
            let v = drv_phase2(out, q, aidx, mnt, m2w, m2u, n)->Ok_0;
            &&& v.len() >= out.len()
            &&& v.take(out.len() as int) == out
            &&& forall|i: int|
                out.len() <= i < v.len() ==> (#[trigger] v[i] matches Some(w2) && {
                    let cw = w2.ancestor[0].spec_word();
                    &&& w2.ancestor.len() == 1
                    &&& w2.ancestor[0].spec_lang() == aidx
                    &&& cw < n
                    &&& q[cw as int] is Some
                    &&& authored_eq(w2, q[cw as int]->Some_0)
                    &&& chain_fix(mnt, q[cw as int]->Some_0.mnemonic) == Some(w2.mnemonic)
                    &&& chain_fix(m2w, w2.mnemonic) == Some(w2.conlang)
                    &&& chain_fix(m2u, w2.mnemonic) == Some(w2.upa)
                })
        }),
    decreases n,
{
    if n > 0 {
        lemma_phase2_props(out, q, aidx, mnt, m2w, m2u, (n - 1) as nat);
        let v0 = drv_phase2(out, q, aidx, mnt, m2w, m2u, (n - 1) as nat)->Ok_0;
        let v = drv_phase2(out, q, aidx, mnt, m2w, m2u, n)->Ok_0;
        match q[n - 1] {
            None => {},
            Some(aw) => {
                let coord = Coordinate::spec_new(aidx, (n - 1) as usize);
                Coordinate::lemma_spec_new(aidx, (n - 1) as usize);
                let w2 = labor_view(aw, coord, mnt, m2w, m2u)->Some_0;
                assert(v == v0.push(Some(w2)));
                assert(v.take(out.len() as int) =~= v0.take(out.len() as int));
                assert(w2.ancestor == seq![coord]);
                assert(w2.ancestor[0].spec_word() == n - 1);
                assert(v[v.len() - 1] == Some(w2));
                assert(forall|i: int| 0 <= i < v0.len() ==> v[i] == v0[i]);
            },
        }
    }
}

/// Law: derivation is self-consistent. After a successful derivation, every
/// word whose single lineage coordinate points into the ancestor has a
/// mnemonic equal to the ancestor word's mnemonic pushed through the
/// sound-change chain, and surface and phonetic forms recomputed from it; a
/// refreshed word keeps its pre-derivation gloss, part-of-speech, note and
/// lineage, and a newly inherited word carries the ancestor word's. Slots not
/// eligible for refresh are untouched.
pub proof fn lemma_derive_self_consistent(
    dv: Seq<Option<WordView>>,
    av: Seq<Option<WordView>>,
    aidx: usize,
    mnt: Seq<PatRepl>,
    m2w: Seq<PatRepl>,
    m2u: Seq<PatRepl>,
)
    requires
        av.len() <= usize::MAX,
        drv_vocab(dv, av, aidx, mnt, m2w, m2u) is Ok,
    ensures
        ({
            let v = drv_vocab(dv, av, aidx, mnt, m2w, m2u)->Ok_0;
            &&& v.len() >= dv.len()
            &&& forall|i: int|
                0 <= i < dv.len() ==> match #[trigger] dv[i] {
                    None => v[i] is None,
                    Some(w) => v[i] matches Some(w2) && {
                        &&& w2.ancestor == w.ancestor
                        &&& authored_eq(w2, w)
                        &&& (!eligible(w, aidx) ==> w2 == w)
                        &&& (eligible(w, aidx) ==> {
                            let cw = w.ancestor[0].spec_word();
                            &&& cw < av.len()
                            &&& av[cw as int] is Some
                            &&& chain_fix(mnt, av[cw as int]->Some_0.mnemonic) == Some(w2.mnemonic)
                            &&& chain_fix(m2w, w2.mnemonic) == Some(w2.conlang)
                            &&& chain_fix(m2u, w2.mnemonic) == Some(w2.upa)
                        })
                    },
                }
            &&& forall|i: int|
                dv.len() <= i < v.len() ==> (#[trigger] v[i] matches Some(w2) && {
                    let cw = w2.ancestor[0].spec_word();
                    &&& eligible(w2, aidx)
                    &&& cw < av.len()
                    &&& av[cw as int] is Some
                    &&& authored_eq(w2, av[cw as int]->Some_0)
                    &&& chain_fix(mnt, av[cw as int]->Some_0.mnemonic) == Some(w2.mnemonic)
                    &&& chain_fix(m2w, w2.mnemonic) == Some(w2.conlang)
                    &&& chain_fix(m2u, w2.mnemonic) == Some(w2.upa)
                })
        }),
{
    let out = drv_phase1(dv, av, aidx, mnt, m2w, m2u, dv.len())->Ok_0.0;
    let q1 = drv_phase1(dv, av, aidx, mnt, m2w, m2u, dv.len())->Ok_0.1;
    lemma_phase1_props(dv, av, aidx, mnt, m2w, m2u, dv.len());
    lemma_phase2_props(out, q1, aidx, mnt, m2w, m2u, q1.len());
    let v = drv_vocab(dv, av, aidx, mnt, m2w, m2u)->Ok_0;
    assert(forall|i: int| 0 <= i < out.len() ==> v[i] == out[i]) by {
        assert(v.take(out.len() as int) == out);
        assert(forall|i: int| 0 <= i < out.len() ==> v.take(out.len() as int)[i] == v[i]);
    }
}

/// The queue with every slot below `n` cleared.
pub open spec fn blank_below(q: Seq<Option<WordView>>, n: nat) -> Seq<Option<WordView>> {
    Seq::new(
        q.len(),
        |k: int|
            if k < n {
                None
            } else {
                q[k]
            },
    )
}

/// A longer successful first phase extends a shorter one.
proof fn lemma_phase1_mono(
    dv: Seq<Option<WordView>>,
    q: Seq<Option<WordView>>,
    aidx: usize,
    mnt: Seq<PatRepl>,
    m2w: Seq<PatRepl>,
    m2u: Seq<PatRepl>,
    m: nat,
    n: nat,
)
    requires
        m <= n <= dv.len(),
        drv_phase1(dv, q, aidx, mnt, m2w, m2u, n) is Ok,
    ensures
        drv_phase1(dv, q, aidx, mnt, m2w, m2u, m) is Ok,
        drv_phase1(dv, q, aidx, mnt, m2w, m2u, n)->Ok_0.0.take(m as int) == drv_phase1(
            dv,
            q,
            aidx,
            mnt,
            m2w,
            m2u,
            m,
        )->Ok_0.0,
    decreases n,
{
    lemma_phase1_props(dv, q, aidx, mnt, m2w, m2u, n);
    if n > m {
        lemma_phase1_mono(dv, q, aidx, mnt, m2w, m2u, m, (n - 1) as nat);
        lemma_phase1_props(dv, q, aidx, mnt, m2w, m2u, (n - 1) as nat);
        let outp = drv_phase1(dv, q, aidx, mnt, m2w, m2u, (n - 1) as nat)->Ok_0.0;
        let outn = drv_phase1(dv, q, aidx, mnt, m2w, m2u, n)->Ok_0.0;
        assert(outn.take(n as int - 1) =~= outp);
        assert(outn.take(m as int) =~= outp.take(m as int));
    } else {
        let outn = drv_phase1(dv, q, aidx, mnt, m2w, m2u, n)->Ok_0.0;
        assert(outn.take(m as int) =~= outn);
    }
}

/// A longer successful second phase extends a shorter one.
proof fn lemma_phase2_mono(
    out: Seq<Option<WordView>>,
    q: Seq<Option<WordView>>,
    aidx: usize,
    mnt: Seq<PatRepl>,
    m2w: Seq<PatRepl>,
    m2u: Seq<PatRepl>,
    m: nat,
    n: nat,
)
    requires
        m <= n <= q.len(),
        drv_phase2(out, q, aidx, mnt, m2w, m2u, n) is Ok,
    ensures
        drv_phase2(out, q, aidx, mnt, m2w, m2u, m) is Ok,
        ({
            let vn = drv_phase2(out, q, aidx, mnt, m2w, m2u, n)->Ok_0;
            let vm = drv_phase2(out, q, aidx, mnt, m2w, m2u, m)->Ok_0;
            vm.len() <= vn.len() && vn.take(vm.len() as int) == vm
        }),
    decreases n,
{
    if n > m {
        lemma_phase2_mono(out, q, aidx, mnt, m2w, m2u, m, (n - 1) as nat);
        let vp = drv_phase2(out, q, aidx, mnt, m2w, m2u, (n - 1) as nat)->Ok_0;
        let vn = drv_phase2(out, q, aidx, mnt, m2w, m2u, n)->Ok_0;
        let vm = drv_phase2(out, q, aidx, mnt, m2w, m2u, m)->Ok_0;
        assert(vn.take(vp.len() as int) =~= vp);
        assert(vn.take(vm.len() as int) =~= vp.take(vm.len() as int));
    } else {
        let vn = drv_phase2(out, q, aidx, mnt, m2w, m2u, n)->Ok_0;
        assert(vn.take(vn.len() as int) =~= vn);
    }
}

/// A second phase over an exhausted queue appends nothing.
proof fn lemma_phase2_all_none(
    out: Seq<Option<WordView>>,
    q: Seq<Option<WordView>>,
    aidx: usize,
    mnt: Seq<PatRepl>,
    m2w: Seq<PatRepl>,
    m2u: Seq<PatRepl>,
    n: nat,
)
    requires
        n <= q.len(),
        forall|k: int| 0 <= k < n ==> q[k] is None,
    ensures
        drv_phase2(out, q, aidx, mnt, m2w, m2u, n) == Ok::<Seq<Option<WordView>>, BabelError>(out),
    decreases n,
{
    if n > 0 {
        lemma_phase2_all_none(out, q, aidx, mnt, m2w, m2u, (n - 1) as nat);
    }
}

/// Overwriting the computed fields twice with the same donor changes nothing
/// the second time.
proof fn lemma_fuse_absorb(w: WordView, neo: WordView)
    ensures
        fuse_view(fuse_view(w, neo), neo) == fuse_view(w, neo),
        fuse_view(neo, neo) == neo,
{
    assert(fuse_view(fuse_view(w, neo), neo) =~= fuse_view(w, neo));
    assert(fuse_view(neo, neo) =~= neo);
}

/// Running the first phase over the output of a successful first phase
/// refreshes every slot to the same value and consumes the same queue
/// entries.
proof fn lemma_rerun_phase1(
    dv: Seq<Option<WordView>>,
    av: Seq<Option<WordView>>,
    aidx: usize,
    mnt: Seq<PatRepl>,
    m2w: Seq<PatRepl>,
    m2u: Seq<PatRepl>,
    v1: Seq<Option<WordView>>,
    n: nat,
)
    requires
        n <= dv.len(),
        drv_phase1(dv, av, aidx, mnt, m2w, m2u, dv.len()) is Ok,
        v1.len() >= dv.len(),
        v1.take(dv.len() as int) == drv_phase1(dv, av, aidx, mnt, m2w, m2u, dv.len())->Ok_0.0,
    ensures
        drv_phase1(v1, av, aidx, mnt, m2w, m2u, n) == Ok::<
            (Seq<Option<WordView>>, Seq<Option<WordView>>),
            BabelError,
        >(
            (
                drv_phase1(dv, av, aidx, mnt, m2w, m2u, dv.len())->Ok_0.0.take(n as int),
                drv_phase1(dv, av, aidx, mnt, m2w, m2u, n)->Ok_0.1,
            ),
        ),
    decreases n,
{
    let out1 = drv_phase1(dv, av, aidx, mnt, m2w, m2u, dv.len())->Ok_0.0;
    lemma_phase1_mono(dv, av, aidx, mnt, m2w, m2u, n, dv.len());
    lemma_phase1_props(dv, av, aidx, mnt, m2w, m2u, dv.len());
    if n == 0 {
        assert(out1.take(0) =~= Seq::<Option<WordView>>::empty());
    } else {
        lemma_rerun_phase1(dv, av, aidx, mnt, m2w, m2u, v1, (n - 1) as nat);
        lemma_phase1_mono(dv, av, aidx, mnt, m2w, m2u, (n - 1) as nat, n as nat);
        let outn = drv_phase1(dv, av, aidx, mnt, m2w, m2u, n)->Ok_0.0;
        let outp = drv_phase1(dv, av, aidx, mnt, m2w, m2u, (n - 1) as nat)->Ok_0.0;
        let qp = drv_phase1(dv, av, aidx, mnt, m2w, m2u, (n - 1) as nat)->Ok_0.1;
        lemma_phase1_props(dv, av, aidx, mnt, m2w, m2u, (n - 1) as nat);
        lemma_phase1_props(dv, av, aidx, mnt, m2w, m2u, n);
        let qn = drv_phase1(dv, av, aidx, mnt, m2w, m2u, n)->Ok_0.1;
        assert(outn.take(n as int - 1) =~= outp);
        assert(outp =~= out1.take(n as int - 1));
        assert(v1[n - 1] == out1[n - 1]);
        assert(out1.take(n as int) =~= outn);
        assert(out1[n - 1] == outn[n - 1]);
        match dv[n - 1] {
            None => {
                assert(outn == outp.push(None));
                assert(qn == qp);
                assert(v1[n - 1] is None);
                assert(drv_phase1(v1, av, aidx, mnt, m2w, m2u, n) == Ok::<
                    (Seq<Option<WordView>>, Seq<Option<WordView>>),
                    BabelError,
                >((outp.push(None), qp)));
            },
            Some(w) => {
                if eligible(w, aidx) {
                    let cw = w.ancestor[0].spec_word();
                    assert(cw < qp.len() && qp[cw as int] is Some);
                    let neo = labor_view(qp[cw as int]->Some_0, w.ancestor[0], mnt, m2w, m2u)
                        ->Some_0;
                    assert(labor_view(qp[cw as int]->Some_0, w.ancestor[0], mnt, m2w, m2u)
                        == Some(neo));
                    let w2 = fuse_view(w, neo);
                    assert(outn == outp.push(Some(w2)));
                    assert(qn == qp.update(cw as int, None));
                    assert(v1[n - 1] == Some(w2));
                    assert(w2.ancestor == w.ancestor);
                    assert(eligible(w2, aidx));
                    assert(w2.ancestor[0] == w.ancestor[0]);
                    lemma_fuse_absorb(w, neo);
                    assert(fuse_view(w2, neo) == w2);
                    assert(drv_phase1(v1, av, aidx, mnt, m2w, m2u, n) == Ok::<
                        (Seq<Option<WordView>>, Seq<Option<WordView>>),
                        BabelError,
                    >((outp.push(Some(w2)), qp.update(cw as int, None))));
                } else {
                    assert(outn == outp.push(Some(w)));
                    assert(qn == qp);
                    assert(v1[n - 1] == Some(w));
                    assert(drv_phase1(v1, av, aidx, mnt, m2w, m2u, n) == Ok::<
                        (Seq<Option<WordView>>, Seq<Option<WordView>>),
                        BabelError,
                    >((outp.push(Some(w)), qp)));
                }
            },
        }
    }
}

/// Continuing the first phase of a rerun across the words that a successful
/// second phase appended refreshes each to itself and consumes the queue slot
/// it came from.
proof fn lemma_rerun_phase2(
    out1: Seq<Option<WordView>>,
    q1: Seq<Option<WordView>>,
    av: Seq<Option<WordView>>,
    aidx: usize,
    mnt: Seq<PatRepl>,
    m2w: Seq<PatRepl>,
    m2u: Seq<PatRepl>,
    v1: Seq<Option<WordView>>,
    n: nat,
)
    requires
        n <= q1.len(),
        q1.len() <= usize::MAX,
        drv_phase2(out1, q1, aidx, mnt, m2w, m2u, q1.len()) == Ok::<
            Seq<Option<WordView>>,
            BabelError,
        >(v1),
        drv_phase1(v1, av, aidx, mnt, m2w, m2u, out1.len()) == Ok::<
            (Seq<Option<WordView>>, Seq<Option<WordView>>),
            BabelError,
        >((out1, q1)),
    ensures
        ({
            let vn = drv_phase2(out1, q1, aidx, mnt, m2w, m2u, n)->Ok_0;
            drv_phase1(v1, av, aidx, mnt, m2w, m2u, vn.len()) == Ok::<
                (Seq<Option<WordView>>, Seq<Option<WordView>>),
                BabelError,
            >((vn, blank_below(q1, n)))
        }),
    decreases n,
{
    lemma_phase2_mono(out1, q1, aidx, mnt, m2w, m2u, n, q1.len());
    if n == 0 {
        assert(blank_below(q1, 0) =~= q1);
    } else {
        lemma_rerun_phase2(out1, q1, av, aidx, mnt, m2w, m2u, v1, (n - 1) as nat);
        lemma_phase2_mono(out1, q1, aidx, mnt, m2w, m2u, (n - 1) as nat, n as nat);
        lemma_phase2_mono(out1, q1, aidx, mnt, m2w, m2u, n, q1.len());
        let vp = drv_phase2(out1, q1, aidx, mnt, m2w, m2u, (n - 1) as nat)->Ok_0;
        let vn = drv_phase2(out1, q1, aidx, mnt, m2w, m2u, n)->Ok_0;
        lemma_phase2_props(out1, q1, aidx, mnt, m2w, m2u, (n - 1) as nat);
        match q1[n - 1] {
            None => {
                assert(vn == vp);
                assert(blank_below(q1, n) =~= blank_below(q1, (n - 1) as nat));
            },
            Some(aw) => {
                let coord = Coordinate::spec_new(aidx, (n - 1) as usize);
                Coordinate::lemma_spec_new(aidx, (n - 1) as usize);
                let w2 = labor_view(aw, coord, mnt, m2w, m2u)->Some_0;
                assert(vn == vp.push(Some(w2)));
                assert(v1.take(vn.len() as int) =~= vn);
                assert(v1.take(vn.len() as int)[vn.len() - 1] == v1[vn.len() - 1]);
                assert(v1[vn.len() - 1] == Some(w2));
                assert(w2.ancestor == seq![coord]);
                assert(eligible(w2, aidx));
                assert(w2.ancestor[0].spec_word() == n - 1);
                let qb = blank_below(q1, (n - 1) as nat);
                assert(qb[n - 1] == q1[n - 1]);
                assert(labor_view(qb[n - 1]->Some_0, w2.ancestor[0], mnt, m2w, m2u) == Some(w2));
                lemma_fuse_absorb(w2, w2);
                assert(fuse_view(w2, w2) == w2);
                assert(qb.update(n - 1, None) =~= blank_below(q1, n));
                assert(vp.push(Some(fuse_view(w2, w2))) == vn);
            },
        }
    }
}

/// Law: re-running a successful derivation with unchanged rules reproduces
/// the identical vocabulary.
pub proof fn lemma_derive_idempotent(
    dv: Seq<Option<WordView>>,
    av: Seq<Option<WordView>>,
    aidx: usize,
    mnt: Seq<PatRepl>,
    m2w: Seq<PatRepl>,
    m2u: Seq<PatRepl>,
)
    requires
        av.len() <= usize::MAX,
        drv_vocab(dv, av, aidx, mnt, m2w, m2u) is Ok,
    ensures
        drv_vocab(drv_vocab(dv, av, aidx, mnt, m2w, m2u)->Ok_0, av, aidx, mnt, m2w, m2u)
            == drv_vocab(dv, av, aidx, mnt, m2w, m2u),
{
    let out1 = drv_phase1(dv, av, aidx, mnt, m2w, m2u, dv.len())->Ok_0.0;
    let q1 = drv_phase1(dv, av, aidx, mnt, m2w, m2u, dv.len())->Ok_0.1;
    let v1 = drv_vocab(dv, av, aidx, mnt, m2w, m2u)->Ok_0;
    lemma_phase1_props(dv, av, aidx, mnt, m2w, m2u, dv.len());
    lemma_phase2_props(out1, q1, aidx, mnt, m2w, m2u, q1.len());
    lemma_rerun_phase1(dv, av, aidx, mnt, m2w, m2u, v1, dv.len());
    assert(out1.take(dv.len() as int) =~= out1);
    lemma_rerun_phase2(out1, q1, av, aidx, mnt, m2w, m2u, v1, q1.len());
    let qb = blank_below(q1, q1.len());
    assert(drv_phase1(v1, av, aidx, mnt, m2w, m2u, v1.len()) == Ok::<
        (Seq<Option<WordView>>, Seq<Option<WordView>>),
        BabelError,
    >((v1, qb)));
    assert(forall|k: int| 0 <= k < qb.len() ==> qb[k] is None);
    lemma_phase2_all_none(v1, qb, aidx, mnt, m2w, m2u, qb.len());
}

/// Law: a dangling lineage reference is reported with the descendant's own
/// slot index. If every slot before `i` derives cleanly and slot `i` holds a
/// live word with exactly one coordinate into the ancestor whose word index
/// is out of range or tombstoned, the whole derivation fails with
/// `GhostWord(i)` — the first failing slot decides.
pub proof fn lemma_ghost_word_index(
    dv: Seq<Option<WordView>>,
    av: Seq<Option<WordView>>,
    aidx: usize,
    mnt: Seq<PatRepl>,
    m2w: Seq<PatRepl>,
    m2u: Seq<PatRepl>,
    i: usize,
)
    requires
        i < dv.len(),
        drv_phase1(dv, av, aidx, mnt, m2w, m2u, i as nat) is Ok,
        dv[i as int] matches Some(w) && eligible(w, aidx) && (w.ancestor[0].spec_word() >= av.len()
            || av[w.ancestor[0].spec_word() as int] is None),
    ensures
        drv_vocab(dv, av, aidx, mnt, m2w, m2u) == Err::<Seq<Option<WordView>>, BabelError>(
            BabelError::GhostWord(i),
        ),
{
    let w = dv[i as int]->Some_0;
    let cw = w.ancestor[0].spec_word();
    let qi = drv_phase1(dv, av, aidx, mnt, m2w, m2u, i as nat)->Ok_0.1;
    lemma_phase1_props(dv, av, aidx, mnt, m2w, m2u, i as nat);
    assert(qi.len() == av.len());
    if cw < qi.len() && qi[cw as int] is Some {
        assert(qi[cw as int] == av[cw as int]);
        assert(false);
    }
    assert(drv_phase1(dv, av, aidx, mnt, m2w, m2u, i as nat + 1) == Err::<
        (Seq<Option<WordView>>, Seq<Option<WordView>>),
        BabelError,
    >(BabelError::GhostWord(i)));
    lemma_drv_phase1_err(dv, av, aidx, mnt, m2w, m2u, i as nat + 1, dv.len());
}

} // verus!
