//! The project registry: languages and parts of speech in index-stable,
//! soft-deletable slots, and the entry point of the derivation engine.

use vstd::prelude::*;
use crate::error::BabelError;
use crate::language::{Language, LanguageView, drv_vocab};
use crate::pattern::PatRepl;
use crate::pos::{PoS, PosView};
use crate::sca::spec_compile_all;
use crate::text::str_eq;
use crate::word::WordView;

verus! {

/// The views of a registry's slots, tombstones kept in place.
pub open spec fn lang_views(v: Seq<Option<Language>>) -> Seq<Option<LanguageView>> {
    v.map_values(
        |o: Option<Language>|
            match o {
                Some(l) => Some(l@),
                None => None,
            },
    )
}

/// The views of a part-of-speech table's slots, tombstones kept in place.
pub open spec fn pos_views(v: Seq<Option<PoS>>) -> Seq<Option<PosView>> {
    v.map_values(
        |o: Option<PoS>|
            match o {
                Some(p) => Some(p@),
                None => None,
            },
    )
}

/// The mathematical content of a project.
#[verifier::ext_equal]
pub ghost struct BabelView {
    pub language: Seq<Option<LanguageView>>,
    pub pos: Seq<Option<PosView>>,
}

/// A whole project: every language and the part-of-speech table.
#[derive(Debug)]
pub struct Babel {
    language: Vec<Option<Language>>,
    pos: Vec<Option<PoS>>,
}

impl View for Babel {
    type V = BabelView;

    closed spec fn view(&self) -> BabelView {
        BabelView { language: lang_views(self.language@), pos: pos_views(self.pos@) }
    }
}

/// Look a slot up by index: a bad index and a tombstoned slot are distinct
/// failures.
pub(crate) fn template_at<T>(seq: &Vec<Option<T>>, idx: usize) -> (r: Result<&T, BabelError>)
    ensures
        if idx < seq@.len() {
            match seq@[idx as int] {
                Some(_) => r matches Ok(v) && seq@[idx as int] == Some(*v),
                None => r == Err::<&T, BabelError>(BabelError::InvalidElement),
            }
        } else {
            r == Err::<&T, BabelError>(BabelError::IndexOutOfRange)
        },
{
    if idx < seq.len() {
        match &seq[idx] {
            Some(v) => Ok(v),
            None => Err(BabelError::InvalidElement),
        }
    } else {
        Err(BabelError::IndexOutOfRange)
    }
}

/// Append a live slot.
pub(crate) fn template_add<T>(seq: &mut Vec<Option<T>>, item: T)
    ensures
        final(seq)@ == old(seq)@.push(Some(item)),
{
    seq.push(Some(item));
}

/// Overwrite a slot, live or tombstoned, with a live item.
pub(crate) fn template_alt<T>(seq: &mut Vec<Option<T>>, idx: usize, item: T) -> (r: Result<
    (),
    BabelError,
>)
    ensures
        if idx < old(seq)@.len() {
            r is Ok && final(seq)@ == old(seq)@.update(idx as int, Some(item))
        } else {
            r == Err::<(), BabelError>(BabelError::IndexOutOfRange) && *final(seq) == *old(seq)
        },
{
    if idx < seq.len() {
        seq.set(idx, Some(item));
        Ok(())
    } else {
        Err(BabelError::IndexOutOfRange)
    }
}

/// Tombstone a slot; indices of later slots do not shift.
pub(crate) fn template_rm<T>(seq: &mut Vec<Option<T>>, idx: usize) -> (r: Result<(), BabelError>)
    ensures
        if idx < old(seq)@.len() {
            r is Ok && final(seq)@ == old(seq)@.update(idx as int, None)
        } else {
            r == Err::<(), BabelError>(BabelError::IndexOutOfRange) && *final(seq) == *old(seq)
        },
{
    if idx < seq.len() {
        seq.set(idx, None);
        Ok(())
    } else {
        Err(BabelError::IndexOutOfRange)
    }
}

/// The indices of the live slots, in increasing order, skipping tombstones
/// while preserving original indices.
pub(crate) fn template_enum<T>(seq: &Vec<Option<T>>) -> (r: Vec<usize>)
    ensures
        forall|j: int| 0 <= j < r@.len() ==> r@[j] < seq@.len() && seq@[r@[j] as int] is Some,
        forall|a: int, b: int| 0 <= a < b < r@.len() ==> r@[a] < r@[b],
        forall|k: int|
            0 <= k < seq@.len() && seq@[k] is Some ==> exists|j: int|
                0 <= j < r@.len() && r@[j] == k,
{
    let mut out: Vec<usize> = Vec::new();
    let mut i: usize = 0;
    while i < seq.len()
        invariant
            i <= seq@.len(),
            forall|j: int| 0 <= j < out@.len() ==> out@[j] < i && seq@[out@[j] as int] is Some,
            forall|a: int, b: int| 0 <= a < b < out@.len() ==> out@[a] < out@[b],
            forall|k: int|
                0 <= k < i && seq@[k] is Some ==> exists|j: int|
                    0 <= j < out@.len() && out@[j] == k,
        decreases seq@.len() - i,
    {
        if seq[i].is_some() {
            let ghost pre = out@;
            out.push(i);
            proof {
                assert(out@[out@.len() - 1] == i);
                assert(forall|k: int|
                    0 <= k < i && seq@[k] is Some ==> exists|j: int|
                        0 <= j < out@.len() && out@[j] == k) by {
                    assert(forall|j: int| 0 <= j < pre.len() ==> out@[j] == pre[j]);
                }
            }
        }
        i = i + 1;
    }
    out
}

impl Babel {
    /// An empty project.
    pub fn new() -> (r: Babel)
        ensures
            r@.language == Seq::<Option<LanguageView>>::empty(),
            r@.pos == Seq::<Option<PosView>>::empty(),
    {
        let r = Babel { language: Vec::new(), pos: Vec::new() };
        proof {
            assert(r@.language =~= Seq::<Option<LanguageView>>::empty());
            assert(r@.pos =~= Seq::<Option<PosView>>::empty());
        }
        r
    }

    /// A project rebuilt wholesale, as persistence hands it back.
    pub fn assemble(language: Vec<Option<Language>>, pos: Vec<Option<PoS>>) -> (r: Babel)
        ensures
            r@.language == lang_views(language@),
            r@.pos == pos_views(pos@),
    {
        Babel { language, pos }
    }

    /// The language slots.
    pub fn lang(&self) -> (r: &Vec<Option<Language>>)
        ensures
            lang_views(r@) == self@.language,
    {
        &self.language
    }

    /// The part-of-speech slots.
    pub fn pos(&self) -> (r: &Vec<Option<PoS>>)
        ensures
            pos_views(r@) == self@.pos,
    {
        &self.pos
    }

    /// The language at `idx`.
    pub fn lang_at(&self, idx: usize) -> (r: Result<&Language, BabelError>)
        ensures
            if idx < self@.language.len() {
                match self@.language[idx as int] {
                    Some(l) => r matches Ok(v) && v@ == l,
                    None => r == Err::<&Language, BabelError>(BabelError::InvalidElement),
                }
            } else {
                r == Err::<&Language, BabelError>(BabelError::IndexOutOfRange)
            },
    {
        template_at(&self.language, idx)
    }

    /// The part of speech at `idx`.
    pub fn pos_at(&self, idx: usize) -> (r: Result<&PoS, BabelError>)
        ensures
            if idx < self@.pos.len() {
                match self@.pos[idx as int] {
                    Some(p) => r matches Ok(v) && v@ == p,
                    None => r == Err::<&PoS, BabelError>(BabelError::InvalidElement),
                }
            } else {
                r == Err::<&PoS, BabelError>(BabelError::IndexOutOfRange)
            },
    {
        template_at(&self.pos, idx)
    }

    /// The index of the first live part of speech with the given
    /// abbreviation.
    pub fn abbr_to_idx(&self, abbr: &str) -> (r: Option<usize>)
        ensures
            match r {
                Some(i) => {
                    &&& i < self@.pos.len()
                    &&& self@.pos[i as int] matches Some(p) && p.abbr == abbr@
                    &&& forall|j: int|
                        0 <= j < i ==> !(#[trigger] self@.pos[j] matches Some(q) && q.abbr
                            == abbr@)
                },
                None => forall|j: int|
                    0 <= j < self@.pos.len() ==> !(#[trigger] self@.pos[j] matches Some(q)
                        && q.abbr == abbr@),
            },
    {
        let mut i: usize = 0;
        while i < self.pos.len()
            invariant
                i <= self.pos@.len(),
                self@.pos.len() == self.pos@.len(),
                forall|j: int|
                    0 <= j < i ==> !(#[trigger] self@.pos[j] matches Some(q) && q.abbr == abbr@),
            decreases self.pos@.len() - i,
        {
            match &self.pos[i] {
                Some(p) => {
                    proof {
                        assert(self@.pos[i as int] == Some(p@));
                    }
                    if str_eq(p.abbr(), abbr) {
                        return Some(i);
                    }
                },
                None => {
                    proof {
                        assert(self@.pos[i as int] is None);
                    }
                },
            }
            i = i + 1;
        }
        None
    }

    /// Append a language.
    pub fn add_lang(&mut self, item: Language)
        ensures
            final(self)@.language == old(self)@.language.push(Some(item@)),
            final(self)@.pos == old(self)@.pos,
    {
        let ghost iv = item@;
        template_add(&mut self.language, item);
        proof {
            assert(final(self)@.language =~= old(self)@.language.push(Some(iv)));
        }
    }

    /// Append a part of speech.
    pub fn add_pos(&mut self, item: PoS)
        ensures
            final(self)@.pos == old(self)@.pos.push(Some(item@)),
            final(self)@.language == old(self)@.language,
    {
        let ghost iv = item@;
        template_add(&mut self.pos, item);
        proof {
            assert(final(self)@.pos =~= old(self)@.pos.push(Some(iv)));
        }
    }

    /// Overwrite the language slot at `idx`, live or tombstoned.
    pub fn rst_lang(&mut self, idx: usize, item: Language) -> (r: Result<(), BabelError>)
        ensures
            if idx < old(self)@.language.len() {
                r is Ok && final(self)@.language == old(self)@.language.update(
                    idx as int,
                    Some(item@),
                ) && final(self)@.pos == old(self)@.pos
            } else {
                r == Err::<(), BabelError>(BabelError::IndexOutOfRange) && *final(self) == *old(self)
            },
    {
        let ghost iv = item@;
        let r = template_alt(&mut self.language, idx, item);
        proof {
            if idx < old(self)@.language.len() {
                assert(final(self)@.language =~= old(self)@.language.update(
                    idx as int,
                    Some(iv),
                ));
            }
        }
        r
    }

    /// Overwrite the part-of-speech slot at `idx`, live or tombstoned.
    pub fn alt_pos(&mut self, idx: usize, item: PoS) -> (r: Result<(), BabelError>)
        ensures
            if idx < old(self)@.pos.len() {
                r is Ok && final(self)@.pos == old(self)@.pos.update(idx as int, Some(item@))
                    && final(self)@.language == old(self)@.language
            } else {
                r == Err::<(), BabelError>(BabelError::IndexOutOfRange) && *final(self) == *old(self)
            },
    {
        let ghost iv = item@;
        let r = template_alt(&mut self.pos, idx, item);
        proof {
            if idx < old(self)@.pos.len() {
                assert(final(self)@.pos =~= old(self)@.pos.update(idx as int, Some(iv)));
            }
        }
        r
    }

    /// Derive language `lang` from language `ancestor_idx`: both must be
    /// distinct, in range and live. On success the descendant's ancestor
    /// pointer and vocabulary are replaced as the derivation engine
    /// prescribes; on any failure nothing is changed.
    pub fn derive(&mut self, lang: usize, ancestor_idx: usize) -> (r: Result<(), BabelError>)
        ensures
            final(self)@.pos == old(self)@.pos,
            if lang == ancestor_idx {
                r == Err::<(), BabelError>(BabelError::DeriveFromSelf) && *final(self) == *old(self)
            } else if lang >= old(self)@.language.len() || ancestor_idx >= old(self)@.language.len() {
                r == Err::<(), BabelError>(BabelError::IndexOutOfRange) && *final(self) == *old(self)
            } else if old(self)@.language[lang as int] is None || old(self)@.language[
                ancestor_idx as int
            ] is None {
                r == Err::<(), BabelError>(BabelError::InvalidElement) && *final(self) == *old(self)
            } else {
                let d = old(self)@.language[lang as int]->Some_0;
                let a = old(self)@.language[ancestor_idx as int]->Some_0;
                match spec_compile_all(d.sca.cats, d.sca.scs) {
                    Err(e) => r == Err::<(), BabelError>(e) && *final(self) == *old(self),
                    Ok(mnt) => match drv_vocab(
                        d.vocab,
                        a.vocab,
                        ancestor_idx,
                        mnt,
                        d.m2w,
                        d.m2u,
                    ) {
                        Err(e) => r == Err::<(), BabelError>(e) && *final(self) == *old(self),
                        Ok(v) => r is Ok && final(self)@.language == old(self)@.language.update(
                            lang as int,
                            Some(
                                LanguageView {
                                    ancestor: Some(ancestor_idx),
                                    vocab: v,
                                    ..d
                                },
                            ),
                        ),
                    },
                }
            },
    {
        if lang == ancestor_idx {
            return Err(BabelError::DeriveFromSelf);
        }
        if lang >= self.language.len() || ancestor_idx >= self.language.len() {
            return Err(BabelError::IndexOutOfRange);
        }
        let mut lang_copy = match &self.language[lang] {
            Some(d) => d.duplicate(),
            None => {
                return Err(BabelError::InvalidElement);
            },
        };
        let anc_copy = match &self.language[ancestor_idx] {
            Some(a) => a.duplicate(),
            None => {
                return Err(BabelError::InvalidElement);
            },
        };
        proof {
            assert(old(self)@.language[lang as int] == Some(lang_copy@));
            assert(old(self)@.language[ancestor_idx as int] == Some(anc_copy@));
        }
        match lang_copy.drv(ancestor_idx, &anc_copy) {
            Ok(()) => {
                let ghost lv = lang_copy@;
                self.language.set(lang, Some(lang_copy));
                proof {
                    assert(final(self)@.language =~= old(self)@.language.update(
                        lang as int,
                        Some(lv),
                    ));
                    assert(final(self)@.pos =~= old(self)@.pos);
                }
                Ok(())
            },
            Err(e) => Err(e),
        }
    }

    /// The indices of the live language slots, in increasing order.
    pub fn enum_lang(&self) -> (r: Vec<usize>)
        ensures
            forall|j: int|
                0 <= j < r@.len() ==> r@[j] < self@.language.len() && self@.language[r@[j] as int]
                    is Some,
            forall|a: int, b: int| 0 <= a < b < r@.len() ==> r@[a] < r@[b],
            forall|k: int|
                0 <= k < self@.language.len() && self@.language[k] is Some ==> exists|j: int|
                    0 <= j < r@.len() && r@[j] == k,
    {
        let r = template_enum(&self.language);
        proof {
            assert(self@.language.len() == self.language@.len());
            assert(forall|j: int|
                0 <= j < self.language@.len() ==> (self@.language[j] is Some <==> self.language@[j]
                    is Some));
        }
        r
    }

    /// The indices of the live part-of-speech slots, in increasing order.
    pub fn enum_pos(&self) -> (r: Vec<usize>)
        ensures
            forall|j: int|
                0 <= j < r@.len() ==> r@[j] < self@.pos.len() && self@.pos[r@[j] as int] is Some,
            forall|a: int, b: int| 0 <= a < b < r@.len() ==> r@[a] < r@[b],
            forall|k: int|
                0 <= k < self@.pos.len() && self@.pos[k] is Some ==> exists|j: int|
                    0 <= j < r@.len() && r@[j] == k,
    {
        let r = template_enum(&self.pos);
        proof {
            assert(self@.pos.len() == self.pos@.len());
            assert(forall|j: int|
                0 <= j < self.pos@.len() ==> (self@.pos[j] is Some <==> self.pos@[j] is Some));
        }
        r
    }

    /// Tombstone the language slot at `idx`; indices do not shift.
    pub fn rm_lang(&mut self, idx: usize) -> (r: Result<(), BabelError>)
        ensures
            if idx < old(self)@.language.len() {
                r is Ok && final(self)@.language == old(self)@.language.update(idx as int, None)
                    && final(self)@.pos == old(self)@.pos
            } else {
                r == Err::<(), BabelError>(BabelError::IndexOutOfRange) && *final(self) == *old(self)
            },
    {
        let r = template_rm(&mut self.language, idx);
        proof {
            if idx < old(self)@.language.len() {
                assert(final(self)@.language =~= old(self)@.language.update(idx as int, None));
            }
        }
        r
    }

    /// Tombstone the part-of-speech slot at `idx`; indices do not shift.
    pub fn rm_pos(&mut self, idx: usize) -> (r: Result<(), BabelError>)
        ensures
            if idx < old(self)@.pos.len() {
                r is Ok && final(self)@.pos == old(self)@.pos.update(idx as int, None) && final(self)@.language == old(self)@.language
            } else {
                r == Err::<(), BabelError>(BabelError::IndexOutOfRange) && *final(self) == *old(self)
            },
    {
        let r = template_rm(&mut self.pos, idx);
        proof {
            if idx < old(self)@.pos.len() {
                assert(final(self)@.pos =~= old(self)@.pos.update(idx as int, None));
            }
        }
        r
    }
}

} // verus!
