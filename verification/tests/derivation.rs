//! Words, languages and the derivation engine, exercised on concrete values.

use neobabel::babel::Babel;
use neobabel::error::BabelError;
use neobabel::language::Language;
use neobabel::pattern::Replace;
use neobabel::pos::PoS;
use neobabel::sca::SoundChange;
use neobabel::word::{Coordinate, Word};

fn vocab_snapshot(lang: &Language) -> Vec<(usize, String, String, String, String, usize, String, Vec<(usize, usize)>)> {
    let mut out = Vec::new();
    for idx in lang.enum_word() {
        let w = lang.word_at(idx).unwrap();
        let coords: Vec<(usize, usize)> = w.ancestor().iter().map(|c| (c.lang(), c.word())).collect();
        out.push((
            idx,
            w.conlang().to_string(),
            w.upa().to_string(),
            w.mnemonic().to_string(),
            w.natlang().to_string(),
            w.pos(),
            w.info().to_string(),
            coords,
        ));
    }
    out
}

#[test]
fn words_morph_through_both_pipelines() {
    let mut lang = Language::new("demo");
    lang.add_m2w(Replace::new("k", "c").unwrap());
    lang.add_m2u(Replace::new("k", "g").unwrap());
    lang.add_word(Word::shell("kato", "cat", 0, "a note")).unwrap();
    let w = lang.word_at(0).unwrap();
    // Both pipelines start from the same mnemonic, not from each other's
    // output.
    assert_eq!(w.mnemonic(), "kato");
    assert_eq!(w.conlang(), "cato");
    assert_eq!(w.upa(), "gato");
    assert_eq!(w.natlang(), "cat");
    assert_eq!(w.info(), "a note");
    assert_eq!(w.ancestor().len(), 0);
}

#[test]
fn non_terminating_pipeline_rejects_the_word() {
    let mut lang = Language::new("demo");
    lang.add_m2w(Replace::new("a", "ab").unwrap());
    assert_eq!(
        lang.add_word(Word::shell("a", "", 0, "")).unwrap_err(),
        BabelError::NonTerminatingRule
    );
    assert_eq!(lang.enum_word().len(), 0);
}

#[test]
fn vocabulary_is_index_stable() {
    let mut lang = Language::new("demo");
    lang.add_word(Word::shell("uno", "one", 0, "")).unwrap();
    lang.add_word(Word::shell("duo", "two", 0, "")).unwrap();
    lang.add_word(Word::shell("tri", "three", 0, "")).unwrap();
    lang.rm_word(1).unwrap();
    assert_eq!(lang.enum_word(), vec![0, 2]);
    assert_eq!(lang.word_at(1).unwrap_err(), BabelError::InvalidElement);
    assert_eq!(lang.word_at(9).unwrap_err(), BabelError::IndexOutOfRange);
    assert_eq!(lang.word_at(2).unwrap().mnemonic(), "tri");
    // Restoring a tombstoned slot is allowed.
    lang.rst_word(1, Word::shell("novo", "new", 0, "")).unwrap();
    assert_eq!(lang.word_at(1).unwrap().mnemonic(), "novo");
    assert_eq!(lang.rm_word(9).unwrap_err(), BabelError::IndexOutOfRange);
}

#[test]
fn alt_word_keeps_the_old_lineage() {
    let mut lang = Language::new("demo");
    lang.add_word(Word::shell("kato", "cat", 0, "")).unwrap();
    lang.etym_word(0, &[Coordinate::new(4, 7)]).unwrap();
    lang.alt_word(0, Word::shell("gato", "feline", 1, "edited")).unwrap();
    let w = lang.word_at(0).unwrap();
    assert_eq!(w.mnemonic(), "gato");
    assert_eq!(w.natlang(), "feline");
    assert_eq!(w.pos(), 1);
    assert_eq!(w.ancestor().len(), 1);
    assert_eq!(w.ancestor()[0].lang(), 4);
    assert_eq!(w.ancestor()[0].word(), 7);
    assert_eq!(
        lang.alt_word(9, Word::shell("x", "", 0, "")).unwrap_err(),
        BabelError::IndexOutOfRange
    );
}

#[test]
fn rule_list_edits_are_bounds_checked() {
    let mut lang = Language::new("demo");
    lang.add_m2w(Replace::new("a", "b").unwrap());
    lang.ins_m2w(0, Replace::new("c", "d").unwrap()).unwrap();
    assert_eq!(lang.m2w_at(0).unwrap().pat(), "c");
    assert_eq!(lang.m2w_at(1).unwrap().pat(), "a");
    assert_eq!(
        lang.ins_m2w(5, Replace::new("x", "y").unwrap()).unwrap_err(),
        BabelError::IndexOutOfRange
    );
    lang.alt_m2w(1, Replace::new("e", "f").unwrap()).unwrap();
    assert_eq!(lang.m2w_at(1).unwrap().pat(), "e");
    lang.rm_m2w(0).unwrap();
    assert_eq!(lang.m2w_at(0).unwrap().pat(), "e");
    assert_eq!(lang.m2w_at(3).unwrap_err(), BabelError::IndexOutOfRange);
    assert_eq!(lang.rm_m2u(0).unwrap_err(), BabelError::IndexOutOfRange);
    lang.add_m2u(Replace::new("k", "g").unwrap());
    assert_eq!(lang.m2u_at(0).unwrap().repl(), "g");
    assert_eq!(lang.enum_m2w(), vec![0]);
    assert_eq!(lang.enum_m2u(), vec![0]);
}

#[test]
fn revive_recomputes_every_live_word() {
    let mut lang = Language::new("demo");
    lang.add_word(Word::shell("kato", "cat", 0, "")).unwrap();
    lang.add_word(Word::shell("kuro", "dog", 0, "")).unwrap();
    lang.rm_word(1).unwrap();
    assert_eq!(lang.word_at(0).unwrap().conlang(), "kato");
    lang.add_m2w(Replace::new("k", "c").unwrap());
    lang.revive().unwrap();
    assert_eq!(lang.word_at(0).unwrap().conlang(), "cato");
    assert_eq!(lang.enum_word(), vec![0]);
}

#[test]
fn new_word_inherits_through_the_sound_change_chain() {
    // Ancestor A holds one word at index 2 (mnemonic "kato"); the descendant
    // has nothing referencing (A, 2). Derivation appends exactly one new word
    // whose lineage is [(A, 2)] and whose mnemonic is "kato" pushed through
    // the chain.
    let mut babel = Babel::new();
    let mut ancestor = Language::new("A");
    ancestor.add_word(Word::shell("pulo", "bird", 0, "")).unwrap();
    ancestor.add_word(Word::shell("miso", "fish", 0, "")).unwrap();
    ancestor.add_word(Word::shell("kato", "cat", 0, "old word")).unwrap();
    ancestor.rm_word(0).unwrap();
    ancestor.rm_word(1).unwrap();
    babel.add_lang(ancestor);
    let mut lang = Language::new("L");
    lang.add_mnt(SoundChange::new("k", "g", "_")).unwrap();
    babel.add_lang(lang);

    babel.derive(1, 0).unwrap();

    let derived = babel.lang_at(1).unwrap();
    assert_eq!(derived.ancestor(), Some(0));
    let live = derived.enum_word();
    assert_eq!(live.len(), 1);
    let w = derived.word_at(live[0]).unwrap();
    assert_eq!(w.mnemonic(), "gato");
    assert_eq!(w.natlang(), "cat");
    assert_eq!(w.info(), "old word");
    assert_eq!(w.ancestor().len(), 1);
    assert_eq!(w.ancestor()[0].lang(), 0);
    assert_eq!(w.ancestor()[0].word(), 2);
}

#[test]
fn fuse_refreshes_computed_fields_only() {
    // A descendant word with exactly one coordinate into the ancestor is
    // refreshed in place: mnemonic/surface/phonetic recomputed, gloss,
    // part-of-speech, note and lineage untouched.
    let mut babel = Babel::new();
    let mut ancestor = Language::new("A");
    ancestor.add_word(Word::shell("kato", "cat", 0, "ancestor note")).unwrap();
    babel.add_lang(ancestor);
    let mut lang = Language::new("L");
    lang.add_mnt(SoundChange::new("k", "g", "_")).unwrap();
    lang.add_m2w(Replace::new("o", "u").unwrap());
    lang.add_word(Word::shell("stale", "cat", 5, "my note")).unwrap();
    lang.etym_word(0, &[Coordinate::new(0, 0)]).unwrap();
    babel.add_lang(lang);

    babel.derive(1, 0).unwrap();

    let derived = babel.lang_at(1).unwrap();
    assert_eq!(derived.enum_word(), vec![0]);
    let w = derived.word_at(0).unwrap();
    assert_eq!(w.mnemonic(), "gato");
    assert_eq!(w.conlang(), "gatu");
    assert_eq!(w.natlang(), "cat");
    assert_eq!(w.pos(), 5);
    assert_eq!(w.info(), "my note");
    assert_eq!(w.ancestor().len(), 1);
    assert_eq!(w.ancestor()[0].lang(), 0);
    assert_eq!(w.ancestor()[0].word(), 0);
}

#[test]
fn words_with_other_lineage_survive_derivation() {
    // Zero coordinates (a coinage) and two coordinates (a blend) are never
    // touched by derivation.
    let mut babel = Babel::new();
    let mut ancestor = Language::new("A");
    ancestor.add_word(Word::shell("kato", "cat", 0, "")).unwrap();
    babel.add_lang(ancestor);
    let mut lang = Language::new("L");
    lang.add_mnt(SoundChange::new("k", "g", "_")).unwrap();
    lang.add_word(Word::shell("coinage", "new", 0, "")).unwrap();
    lang.add_word(Word::shell("blend", "mix", 0, "")).unwrap();
    lang.etym_word(1, &[Coordinate::new(0, 0), Coordinate::new(0, 0)]).unwrap();
    babel.add_lang(lang);

    babel.derive(1, 0).unwrap();

    let derived = babel.lang_at(1).unwrap();
    // The coinage and the blend stay; the ancestor word is inherited anew.
    assert_eq!(derived.enum_word(), vec![0, 1, 2]);
    assert_eq!(derived.word_at(0).unwrap().mnemonic(), "coinage");
    assert_eq!(derived.word_at(1).unwrap().mnemonic(), "blend");
    assert_eq!(derived.word_at(2).unwrap().mnemonic(), "gato");
}

#[test]
fn tombstoned_ancestor_word_is_a_ghost() {
    // Deleting the ancestor word at index 2 and re-deriving a descendant that
    // still references (A, 2) fails with the descendant's own index.
    let mut babel = Babel::new();
    let mut ancestor = Language::new("A");
    ancestor.add_word(Word::shell("pulo", "bird", 0, "")).unwrap();
    ancestor.add_word(Word::shell("miso", "fish", 0, "")).unwrap();
    ancestor.add_word(Word::shell("kato", "cat", 0, "")).unwrap();
    babel.add_lang(ancestor);
    let mut lang = Language::new("L");
    lang.add_word(Word::shell("stale", "cat", 0, "")).unwrap();
    lang.etym_word(0, &[Coordinate::new(0, 2)]).unwrap();
    babel.add_lang(lang);

    let mut edited = babel.lang_at(0).unwrap().duplicate();
    edited.rm_word(2).unwrap();
    babel.rst_lang(0, edited).unwrap();

    assert_eq!(babel.derive(1, 0).unwrap_err(), BabelError::GhostWord(0));
    // The failure leaves the descendant untouched.
    let lang = babel.lang_at(1).unwrap();
    assert_eq!(lang.ancestor(), None);
    assert_eq!(lang.word_at(0).unwrap().mnemonic(), "stale");
}

#[test]
fn rederiving_twice_is_byte_identical() {
    let mut babel = Babel::new();
    let mut ancestor = Language::new("A");
    ancestor.add_word(Word::shell("kato", "cat", 0, "")).unwrap();
    ancestor.add_word(Word::shell("pulo", "bird", 1, "wings")).unwrap();
    ancestor.add_word(Word::shell("miso", "fish", 2, "")).unwrap();
    ancestor.rm_word(1).unwrap();
    babel.add_lang(ancestor);
    let mut lang = Language::new("L");
    lang.add_mnt(SoundChange::new("k", "g", "_")).unwrap();
    lang.add_mnt(SoundChange::new("s", "z", "i_")).unwrap();
    lang.add_m2w(Replace::new("o", "u").unwrap());
    lang.add_m2u(Replace::new("t", "T").unwrap());
    lang.add_word(Word::shell("coin", "own", 3, "")).unwrap();
    babel.add_lang(lang);

    babel.derive(1, 0).unwrap();
    let first = vocab_snapshot(babel.lang_at(1).unwrap());
    babel.derive(1, 0).unwrap();
    let second = vocab_snapshot(babel.lang_at(1).unwrap());
    assert_eq!(first, second);
}

#[test]
fn derive_validates_its_indices() {
    let mut babel = Babel::new();
    babel.add_lang(Language::new("A"));
    babel.add_lang(Language::new("B"));
    assert_eq!(babel.derive(0, 0).unwrap_err(), BabelError::DeriveFromSelf);
    assert_eq!(babel.derive(5, 0).unwrap_err(), BabelError::IndexOutOfRange);
    assert_eq!(babel.derive(0, 5).unwrap_err(), BabelError::IndexOutOfRange);
    babel.rm_lang(1).unwrap();
    assert_eq!(babel.derive(1, 0).unwrap_err(), BabelError::InvalidElement);
    assert_eq!(babel.derive(0, 1).unwrap_err(), BabelError::InvalidElement);
}

#[test]
fn registry_slots_keep_their_indices() {
    let mut babel = Babel::new();
    babel.add_lang(Language::new("A"));
    babel.add_lang(Language::new("B"));
    babel.add_lang(Language::new("C"));
    babel.rm_lang(1).unwrap();
    assert_eq!(babel.enum_lang(), vec![0, 2]);
    assert_eq!(babel.lang_at(1).unwrap_err(), BabelError::InvalidElement);
    assert_eq!(babel.lang_at(7).unwrap_err(), BabelError::IndexOutOfRange);
    assert_eq!(babel.lang_at(2).unwrap().name(), "C");
    babel.rst_lang(1, Language::new("D")).unwrap();
    assert_eq!(babel.lang_at(1).unwrap().name(), "D");
    assert_eq!(
        babel.rst_lang(9, Language::new("E")).unwrap_err(),
        BabelError::IndexOutOfRange
    );
}

#[test]
fn parts_of_speech_are_looked_up_by_abbreviation() {
    let mut babel = Babel::new();
    babel.add_pos(PoS::new("noun", "n"));
    babel.add_pos(PoS::new("verb", "v"));
    assert_eq!(babel.abbr_to_idx("v"), Some(1));
    assert_eq!(babel.abbr_to_idx("adj"), None);
    babel.alt_pos(0, PoS::new("nominal", "nom")).unwrap();
    assert_eq!(babel.pos_at(0).unwrap().name(), "nominal");
    assert_eq!(babel.abbr_to_idx("n"), None);
    assert_eq!(babel.abbr_to_idx("nom"), Some(0));
    babel.rm_pos(1).unwrap();
    assert_eq!(babel.enum_pos(), vec![0]);
    assert_eq!(babel.pos_at(1).unwrap_err(), BabelError::InvalidElement);
    assert_eq!(babel.abbr_to_idx("v"), None);
    assert_eq!(babel.alt_pos(9, PoS::new("x", "x")).unwrap_err(), BabelError::IndexOutOfRange);
    assert_eq!(babel.rm_pos(9).unwrap_err(), BabelError::IndexOutOfRange);
}

#[test]
fn language_rename_and_categories() {
    let mut lang = Language::new("before");
    lang.change_name("after");
    assert_eq!(lang.name(), "after");
    lang.add_cat('C', "ptk");
    assert_eq!(lang.cat_at('C').unwrap(), "ptk");
    assert_eq!(lang.cat_at('X').unwrap_err(), BabelError::IndexOutOfRange);
    assert_eq!(lang.enum_cat(), vec![0]);
    assert_eq!(lang.rm_cat('C').unwrap(), "ptk");
    lang.add_mnt(SoundChange::new("k", "g", "_")).unwrap();
    assert_eq!(lang.mnt_at(0).unwrap().repl(), "g");
    assert_eq!(lang.mnt_at(4).unwrap_err(), BabelError::IndexOutOfRange);
    assert_eq!(lang.enum_mnt(), vec![0]);
    lang.ins_mnt(0, SoundChange::new("p", "b", "_")).unwrap();
    lang.alt_mnt(1, SoundChange::new("t", "d", "_")).unwrap();
    assert_eq!(lang.mnt_at(0).unwrap().tg(), "p");
    assert_eq!(lang.mnt_at(1).unwrap().tg(), "t");
    lang.rm_mnt(0).unwrap();
    assert_eq!(lang.mnt_at(0).unwrap().tg(), "t");
}

#[test]
fn derivation_reports_uncompilable_rules() {
    // A category removed after a correlated rule was declared surfaces as a
    // typed failure at derivation time, not a crash.
    let mut babel = Babel::new();
    babel.add_lang(Language::new("A"));
    let mut lang = Language::new("L");
    lang.add_cat('C', "ptk");
    lang.add_cat('V', "bdg");
    lang.add_mnt(SoundChange::new("C", "V", "a_a")).unwrap();
    lang.rm_cat('C').unwrap();
    babel.add_lang(lang);
    assert_eq!(babel.derive(1, 0).unwrap_err(), BabelError::InvalidSCTarget);
}
