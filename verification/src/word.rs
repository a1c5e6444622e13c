//! Words and their lineage.
//!
//! A word carries three computed fields (surface spelling, phonetic
//! transcription, and — for derived words — the mnemonic) and four authored
//! fields (gloss, part-of-speech reference, seed mnemonic, note), plus a list
//! of weak back-references to ancestor words in other languages.

use vstd::prelude::*;
use vstd::string::StringExecFns;
use crate::error::BabelError;
use crate::pattern::{PatRepl, Substitute, sub_views, chain_fix, apply_chain};

verus! {

/// A weak, non-owning reference to a word: (language index, word index).
///
/// It may dangle if the referenced word is removed; every dereference
/// re-validates against the current vocabulary.
#[derive(Debug, Clone, Copy, PartialEq, Eq, Structural)]
pub struct Coordinate {
    lang: usize,
    word: usize,
}

impl Coordinate {
    /// The coordinate with the given components.
    pub closed spec fn spec_new(lang: usize, word: usize) -> Coordinate {
        Coordinate { lang, word }
    }

    /// The language component.
    pub closed spec fn spec_lang(self) -> usize {
        self.lang
    }

    /// The word component.
    pub closed spec fn spec_word(self) -> usize {
        self.word
    }

    /// `spec_new` determines both components.
    pub proof fn lemma_spec_new(lang: usize, word: usize)
        ensures
            Coordinate::spec_new(lang, word).spec_lang() == lang,
            Coordinate::spec_new(lang, word).spec_word() == word,
    {
    }

    /// Pair a language index with a word index.
    pub fn new(lang: usize, word: usize) -> (r: Coordinate)
        ensures
            r == Coordinate::spec_new(lang, word),
            r.spec_lang() == lang,
            r.spec_word() == word,
    {
        Coordinate { lang, word }
    }

    /// The language component.
    pub fn lang(&self) -> (r: usize)
        ensures
            r == self.spec_lang(),
    {
        self.lang
    }

    /// The word component.
    pub fn word(&self) -> (r: usize)
        ensures
            r == self.spec_word(),
    {
        self.word
    }
}

/// The mathematical content of a word.
#[verifier::ext_equal]
pub ghost struct WordView {
    /// Surface spelling (computed).
    pub conlang: Seq<char>,
    /// Gloss in a reference language (authored).
    pub natlang: Seq<char>,
    /// Part-of-speech reference (authored).
    pub pos: usize,
    /// Phonetic transcription (computed).
    pub upa: Seq<char>,
    /// Mnemonic spelling (authored seed; computed on derived words).
    pub mnemonic: Seq<char>,
    /// Lineage coordinates.
    pub ancestor: Seq<Coordinate>,
    /// Free-text note (authored).
    pub info: Seq<char>,
}

/// A word of a vocabulary.
#[derive(Debug)]
pub struct Word {
    conlang: String,
    natlang: String,
    pos: usize,
    upa: String,
    mnemonic: String,
    ancestor: Vec<Coordinate>,
    info: String,
}

impl View for Word {
    type V = WordView;

    closed spec fn view(&self) -> WordView {
        WordView {
            conlang: self.conlang@,
            natlang: self.natlang@,
            pos: self.pos,
            upa: self.upa@,
            mnemonic: self.mnemonic@,
            ancestor: self.ancestor@,
            info: self.info@,
        }
    }
}

/// The views of a vocabulary's slots, tombstones kept in place.
pub open spec fn word_views(v: Seq<Option<Word>>) -> Seq<Option<WordView>> {
    v.map_values(
        |o: Option<Word>|
            match o {
                Some(w) => Some(w@),
                None => None,
            },
    )
}

/// Only the computed fields of `w` are overwritten by a fuse; gloss,
/// part-of-speech, note and lineage stay.
pub open spec fn fuse_view(w: WordView, neo: WordView) -> WordView {
    WordView { conlang: neo.conlang, upa: neo.upa, mnemonic: neo.mnemonic, ..w }
}

/// The brand-new word that `labor` builds: the ancestor's mnemonic pushed
/// through the sound-change chain, the authored fields copied verbatim, the
/// lineage set to exactly the one coordinate, and the computed fields derived
/// from the new mnemonic; `None` when a pipeline fails to stabilize.
pub open spec fn labor_view(
    aw: WordView,
    coord: Coordinate,
    mnt: Seq<PatRepl>,
    m2w: Seq<PatRepl>,
    m2u: Seq<PatRepl>,
) -> Option<WordView> {
    match chain_fix(mnt, aw.mnemonic) {
        None => None,
        Some(mn) => match chain_fix(m2w, mn) {
            None => None,
            Some(cl) => match chain_fix(m2u, mn) {
                None => None,
                Some(up) => Some(
                    WordView {
                        conlang: cl,
                        natlang: aw.natlang,
                        pos: aw.pos,
                        upa: up,
                        mnemonic: mn,
                        ancestor: seq![coord],
                        info: aw.info,
                    },
                ),
            },
        },
    }
}

impl Word {
    /// A word holding only its authored fields; the computed fields start
    /// empty and the lineage starts without coordinates.
    pub fn shell(mnemonic: &str, natlang: &str, pos: usize, info: &str) -> (r: Word)
        ensures
            r@ == (WordView {
                conlang: Seq::<char>::empty(),
                natlang: natlang@,
                pos: pos,
                upa: Seq::<char>::empty(),
                mnemonic: mnemonic@,
                ancestor: Seq::<Coordinate>::empty(),
                info: info@,
            }),
    {
        Word {
            conlang: String::new(),
            natlang: String::from_str(natlang),
            pos,
            upa: String::new(),
            mnemonic: String::from_str(mnemonic),
            ancestor: Vec::new(),
            info: String::from_str(info),
        }
    }

    /// The surface spelling.
    pub fn conlang(&self) -> (r: &str)
        ensures
            r@ == self@.conlang,
    {
        self.conlang.as_str()
    }

    /// The gloss.
    pub fn natlang(&self) -> (r: &str)
        ensures
            r@ == self@.natlang,
    {
        self.natlang.as_str()
    }

    /// The part-of-speech reference.
    pub fn pos(&self) -> (r: usize)
        ensures
            r == self@.pos,
    {
        self.pos
    }

    /// The phonetic transcription.
    pub fn upa(&self) -> (r: &str)
        ensures
            r@ == self@.upa,
    {
        self.upa.as_str()
    }

    /// The mnemonic spelling.
    pub fn mnemonic(&self) -> (r: &str)
        ensures
            r@ == self@.mnemonic,
    {
        self.mnemonic.as_str()
    }

    /// The lineage coordinates.
    pub fn ancestor(&self) -> (r: &Vec<Coordinate>)
        ensures
            r@ == self@.ancestor,
    {
        &self.ancestor
    }

    /// The free-text note.
    pub fn info(&self) -> (r: &str)
        ensures
            r@ == self@.info,
    {
        self.info.as_str()
    }

    /// Append one lineage coordinate.
    pub fn add_ancestor(&mut self, coord: Coordinate)
        ensures
            final(self)@ == (WordView { ancestor: old(self)@.ancestor.push(coord), ..old(self)@ }),
    {
        self.ancestor.push(coord);
    }

    /// Replace the lineage coordinates wholesale.
    pub fn set_ancestor(&mut self, other: &[Coordinate])
        ensures
            final(self)@ == (WordView { ancestor: other@, ..old(self)@ }),
    {
        let mut list: Vec<Coordinate> = Vec::new();
        let mut i: usize = 0;
        while i < other.len()
            invariant
                i <= other@.len(),
                list@ == other@.take(i as int),
            decreases other@.len() - i,
        {
            list.push(other[i]);
            proof {
                assert(other@.take(i as int + 1) =~= other@.take(i as int).push(other@[i as int]));
            }
            i = i + 1;
        }
        proof {
            assert(other@.take(other@.len() as int) =~= other@);
        }
        self.ancestor = list;
    }

    /// Overwrite only the computed fields from `other`, preserving the
    /// authored fields and the lineage.
    pub fn fuse(&mut self, other: Word)
        ensures
            final(self)@ == fuse_view(old(self)@, other@),
    {
        self.conlang = other.conlang;
        self.upa = other.upa;
        self.mnemonic = other.mnemonic;
    }

    /// Recompute the surface spelling and the phonetic transcription from the
    /// mnemonic, running it through the two pipelines independently; on a
    /// non-terminating rule nothing is changed.
    pub fn morph(&mut self, m2w: &Vec<Substitute>, m2u: &Vec<Substitute>) -> (r: Result<
        (),
        BabelError,
    >)
        ensures
            match chain_fix(sub_views(m2w@), old(self)@.mnemonic) {
                None => r == Err::<(), BabelError>(BabelError::NonTerminatingRule) && *final(self)
                    == *old(self),
                Some(cl) => match chain_fix(sub_views(m2u@), old(self)@.mnemonic) {
                    None => r == Err::<(), BabelError>(BabelError::NonTerminatingRule)
                        && *final(self) == *old(self),
                    Some(up) => r is Ok && final(self)@ == (WordView {
                        conlang: cl,
                        upa: up,
                        ..old(self)@
                    }),
                },
            },
    {
        let conlang = match apply_chain(m2w, self.mnemonic.as_str()) {
            Ok(v) => v,
            Err(e) => {
                return Err(e);
            },
        };
        let upa = match apply_chain(m2u, self.mnemonic.as_str()) {
            Ok(v) => v,
            Err(e) => {
                return Err(e);
            },
        };
        self.conlang = conlang;
        self.upa = upa;
        Ok(())
    }

    /// Produce the brand-new derived word described by [`labor_view`].
    pub fn labor(
        &self,
        coord: Coordinate,
        mnt: &Vec<Substitute>,
        m2w: &Vec<Substitute>,
        m2u: &Vec<Substitute>,
    ) -> (r: Result<Word, BabelError>)
        ensures
            match labor_view(self@, coord, sub_views(mnt@), sub_views(m2w@), sub_views(m2u@)) {
                Some(w) => r matches Ok(v) && v@ == w,
                None => r == Err::<Word, BabelError>(BabelError::NonTerminatingRule),
            },
    {
        let mnemonic = match apply_chain(mnt, self.mnemonic.as_str()) {
            Ok(v) => v,
            Err(e) => {
                return Err(e);
            },
        };
        let mut word = Word::shell(
            mnemonic.as_str(),
            self.natlang.as_str(),
            self.pos,
            self.info.as_str(),
        );
        word.add_ancestor(coord);
        proof {
            assert(word@.ancestor =~= seq![coord]);
        }
        match word.morph(m2w, m2u) {
            Ok(()) => Ok(word),
            Err(e) => Err(e),
        }
    }

    /// A word rebuilt field by field, as persistence hands it back.
    pub fn assemble(
        conlang: &str,
        natlang: &str,
        pos: usize,
        upa: &str,
        mnemonic: &str,
        ancestor: Vec<Coordinate>,
        info: &str,
    ) -> (r: Word)
        ensures
            r@ == (WordView {
                conlang: conlang@,
                natlang: natlang@,
                pos: pos,
                upa: upa@,
                mnemonic: mnemonic@,
                ancestor: ancestor@,
                info: info@,
            }),
    {
        Word {
            conlang: String::from_str(conlang),
            natlang: String::from_str(natlang),
            pos,
            upa: String::from_str(upa),
            mnemonic: String::from_str(mnemonic),
            ancestor,
            info: String::from_str(info),
        }
    }

    /// An identical copy.
    pub fn duplicate(&self) -> (r: Word)
        ensures
            r@ == self@,
    {
        let mut ancestor: Vec<Coordinate> = Vec::new();
        let mut i: usize = 0;
        while i < self.ancestor.len()
            invariant
                i <= self.ancestor@.len(),
                ancestor@ == self.ancestor@.take(i as int),
            decreases self.ancestor@.len() - i,
        {
            ancestor.push(self.ancestor[i]);
            proof {
                assert(self.ancestor@.take(i as int + 1) =~= self.ancestor@.take(
                    i as int,
                ).push(self.ancestor@[i as int]));
            }
            i = i + 1;
        }
        proof {
            assert(self.ancestor@.take(self.ancestor@.len() as int) =~= self.ancestor@);
        }
        Word {
            conlang: self.conlang.clone(),
            natlang: self.natlang.clone(),
            pos: self.pos,
            upa: self.upa.clone(),
            mnemonic: self.mnemonic.clone(),
            ancestor,
            info: self.info.clone(),
        }
    }
}

/// An identical copy of a vocabulary, tombstones kept in place.
pub fn duplicate_vocab(v: &Vec<Option<Word>>) -> (r: Vec<Option<Word>>)
    ensures
        word_views(r@) == word_views(v@),
{
    let mut out: Vec<Option<Word>> = Vec::new();
    let mut i: usize = 0;
    proof {
        assert(word_views(out@) =~= word_views(v@).take(0));
    }
    while i < v.len()
        invariant
            i <= v@.len(),
            word_views(out@) == word_views(v@).take(i as int),
        decreases v@.len() - i,
    {
        let ghost pre = word_views(out@);
        match &v[i] {
            Some(w) => {
                let ghost wv = w@;
                out.push(Some(w.duplicate()));
                proof {
                    assert(word_views(out@) =~= pre.push(Some(wv)));
                }
            },
            None => {
                out.push(None);
                proof {
                    assert(word_views(out@) =~= pre.push(None));
                }
            },
        }
        proof {
            assert(word_views(v@).take(i as int + 1) =~= word_views(v@).take(i as int).push(
                word_views(v@)[i as int],
            ));
        }
        i = i + 1;
    }
    proof {
        assert(word_views(v@).take(v@.len() as int) =~= word_views(v@));
    }
    out
}

} // verus!
