//! The pattern engine and the sound-change rule compiler, exercised on
//! concrete values.

use neobabel::error::BabelError;
use neobabel::pattern::{Replace, Substitute, apply_chain};
use neobabel::sca::{SCA, SoundChange};

#[test]
fn substitute_rewrites_to_fixpoint() {
    let sub = Substitute::new("a", "b").unwrap();
    let out = sub.apply("banana").unwrap();
    assert_eq!(out, "bbnbnb");
}

#[test]
fn fixpoint_is_noop_on_stable_string() {
    // Applying the same substitution twice in a row yields identical output
    // both times.
    let sub = Substitute::new("aa", "a").unwrap();
    let once = sub.apply("aaaa").unwrap();
    assert_eq!(once, "a");
    let twice = sub.apply(&once).unwrap();
    assert_eq!(twice, once);
    // A string the pattern never matches is already stable.
    let sub2 = Substitute::new("q", "r").unwrap();
    assert_eq!(sub2.apply("xyz").unwrap(), "xyz");
}

#[test]
fn self_feeding_rule_is_reported() {
    let sub = Substitute::new("a", "ab").unwrap();
    assert_eq!(sub.apply("a"), Err(BabelError::NonTerminatingRule));
}

#[test]
fn invalid_pattern_is_rejected_at_creation() {
    assert_eq!(Substitute::new("foo(bar", "x").unwrap_err(), BabelError::PatternError(0));
    assert_eq!(Replace::new("foo(bar", "x").unwrap_err(), BabelError::PatternError(0));
    let ok = Replace::new("fo+", "x").unwrap();
    assert_eq!(ok.pat(), "fo+");
    assert_eq!(ok.repl(), "x");
}

#[test]
fn pattern_error_names_the_offending_rule() {
    // An unbalanced parenthesis in the target makes the compiled pattern
    // invalid; the error carries the rule's index in the declared list.
    let mut sca = SCA::new();
    sca.add_sc(SoundChange::new("k", "g", "_")).unwrap();
    assert_eq!(
        sca.compile(&SoundChange::new("(", "x", "_")).unwrap_err(),
        BabelError::PatternError(0)
    );
    assert_eq!(
        sca.ins_sc(1, SoundChange::new("(", "x", "_")).unwrap_err(),
        BabelError::PatternError(0)
    );
    // A category edit can invalidate a stored rule's compiled pattern; the
    // full compilation then reports that rule's list index.
    sca.add_cat('C', "x");
    sca.add_sc(SoundChange::new("C", "y", "_")).unwrap();
    sca.add_cat('C', "\\");
    assert_eq!(sca.compile_all().unwrap_err(), BabelError::PatternError(1));
}

#[test]
fn uncorrelated_rule_compiles_to_one_substitution() {
    // The replacement references no category, so exactly one substitution
    // comes out, with the matching side expanded to a character class.
    let mut sca = SCA::new();
    sca.add_cat('C', "ptk");
    let sc = SoundChange::new("C", "x", "a_a");
    let subs = sca.compile(&sc).unwrap();
    assert_eq!(subs.len(), 1);
    assert_eq!(subs[0].pat(), "(?P<pre>a)[ptk](?P<post>a)");
    assert_eq!(subs[0].repl(), "${pre}x${post}");
}

#[test]
fn correlated_rule_compiles_to_min_length_substitutions() {
    // Replacement category of length 2, target category of length 3: exactly
    // min(3, 2) = 2 substitutions, each fully concrete.
    let mut sca = SCA::new();
    sca.add_cat('C', "ptk");
    sca.add_cat('W', "bd");
    let sc = SoundChange::new("C", "W", "a_a");
    let subs = sca.compile(&sc).unwrap();
    assert_eq!(subs.len(), 2);
    assert_eq!(subs[0].pat(), "(?P<pre>a)p(?P<post>a)");
    assert_eq!(subs[0].repl(), "${pre}b${post}");
    assert_eq!(subs[1].pat(), "(?P<pre>a)t(?P<post>a)");
    assert_eq!(subs[1].repl(), "${pre}d${post}");
}

#[test]
fn voiceless_stop_voiced_between_vowels() {
    // Category C = "ptk" (voiceless) paired with replacement category
    // V = "bdg" (voiced); the medial p of "apa" becomes its index-0 partner b,
    // while t and k leave that word untouched.
    let mut sca = SCA::new();
    sca.add_cat('C', "ptk");
    sca.add_cat('V', "bdg");
    let sc = SoundChange::new("C", "V", "a_a");
    let subs = sca.compile(&sc).unwrap();
    assert_eq!(subs.len(), 3);
    assert_eq!(apply_chain(&subs, "apa").unwrap(), "aba");
    // Index-1 correlation in the same compiled list: t pairs with d.
    assert_eq!(apply_chain(&subs, "ata").unwrap(), "ada");
}

#[test]
fn voiced_environment_uses_category_class() {
    // The environment may reference a category too: it becomes a character
    // class, so the rule fires only between voiced segments.
    let mut sca = SCA::new();
    sca.add_cat('C', "ptk");
    sca.add_cat('V', "bdg");
    let sc = SoundChange::new("C", "V", "V_V");
    let subs = sca.compile(&sc).unwrap();
    assert_eq!(subs.len(), 3);
    assert_eq!(apply_chain(&subs, "abpda").unwrap(), "abbda");
    // Between plain vowels nothing is voiced here.
    assert_eq!(apply_chain(&subs, "apa").unwrap(), "apa");
}

#[test]
fn multibyte_graphemes_are_single_units() {
    let mut sca = SCA::new();
    sca.add_cat('C', "птк");
    sca.add_cat('V', "бдг");
    let sc = SoundChange::new("C", "V", "а_а");
    let subs = sca.compile(&sc).unwrap();
    assert_eq!(subs.len(), 3);
    assert_eq!(apply_chain(&subs, "апа").unwrap(), "аба");
}

#[test]
fn malformed_environment_rejected_whatever_the_rule() {
    // The environment is validated for every rule, before the correlation
    // branch: an empty correlated expansion does not let a malformed
    // environment slip through, and a missing target category does not
    // preempt it.
    let mut sca = SCA::new();
    sca.add_cat('C', "ptk");
    sca.add_cat('E', "");
    sca.add_cat('V', "bdg");
    let empty_expansion = SoundChange::new("C", "E", "ab");
    assert_eq!(sca.compile(&empty_expansion).unwrap_err(), BabelError::InvalidSCEnvironment);
    let no_target_category = SoundChange::new("x", "V", "ab");
    assert_eq!(sca.compile(&no_target_category).unwrap_err(), BabelError::InvalidSCEnvironment);
}

#[test]
fn environment_must_split_in_two() {
    let mut sca = SCA::new();
    sca.add_cat('C', "ptk");
    let no_marker = SoundChange::new("C", "x", "ab");
    assert_eq!(sca.compile(&no_marker).unwrap_err(), BabelError::InvalidSCEnvironment);
    let two_markers = SoundChange::new("C", "x", "a_b_c");
    assert_eq!(sca.compile(&two_markers).unwrap_err(), BabelError::InvalidSCEnvironment);
    let empty_sides = SoundChange::new("C", "x", "_");
    assert!(sca.compile(&empty_sides).is_ok());
}

#[test]
fn correlated_rule_needs_target_category() {
    let mut sca = SCA::new();
    sca.add_cat('V', "bdg");
    let sc = SoundChange::new("x", "V", "_");
    assert_eq!(sca.compile(&sc).unwrap_err(), BabelError::InvalidSCTarget);
}

#[test]
fn empty_category_expands_to_nothing() {
    let mut sca = SCA::new();
    sca.add_cat('C', "ptk");
    sca.add_cat('E', "");
    let sc = SoundChange::new("C", "E", "_");
    let subs = sca.compile(&sc).unwrap();
    assert_eq!(subs.len(), 0);
}

#[test]
fn category_table_overwrites_and_removes() {
    let mut sca = SCA::new();
    sca.add_cat('C', "abc");
    sca.add_cat('C', "xy");
    assert_eq!(sca.cat().len(), 1);
    assert_eq!(sca.cat()[0].0, 'C');
    assert_eq!(sca.cat()[0].1, "xy");
    assert_eq!(sca.rm_cat('Z').unwrap_err(), BabelError::IndexOutOfRange);
    assert_eq!(sca.rm_cat('C').unwrap(), "xy");
    assert_eq!(sca.cat().len(), 0);
}

#[test]
fn rule_list_validates_on_every_edit() {
    let mut sca = SCA::new();
    sca.add_cat('C', "ptk");
    assert_eq!(
        sca.add_sc(SoundChange::new("C", "x", "nosplit")).unwrap_err(),
        BabelError::InvalidSCEnvironment
    );
    assert_eq!(sca.sc().len(), 0);
    sca.add_sc(SoundChange::new("C", "x", "a_a")).unwrap();
    sca.add_sc(SoundChange::new("k", "g", "_")).unwrap();
    assert_eq!(sca.sc().len(), 2);
    assert_eq!(
        sca.alt_sc(0, SoundChange::new("C", "x", "bad")).unwrap_err(),
        BabelError::InvalidSCEnvironment
    );
    assert_eq!(
        sca.alt_sc(9, SoundChange::new("k", "g", "_")).unwrap_err(),
        BabelError::IndexOutOfRange
    );
    sca.alt_sc(0, SoundChange::new("t", "d", "_")).unwrap();
    assert_eq!(sca.sc()[0].tg(), "t");
    sca.ins_sc(0, SoundChange::new("p", "b", "_")).unwrap();
    assert_eq!(sca.sc().len(), 3);
    assert_eq!(sca.sc()[0].tg(), "p");
    assert_eq!(
        sca.ins_sc(9, SoundChange::new("p", "b", "_")).unwrap_err(),
        BabelError::IndexOutOfRange
    );
    sca.rm_sc(0).unwrap();
    assert_eq!(sca.sc().len(), 2);
    assert_eq!(sca.sc()[0].tg(), "t");
    assert_eq!(sca.rm_sc(9).unwrap_err(), BabelError::IndexOutOfRange);
}

#[test]
fn compile_all_keeps_declaration_order() {
    let mut sca = SCA::new();
    sca.add_cat('C', "pt");
    sca.add_cat('V', "bd");
    sca.add_sc(SoundChange::new("C", "V", "a_a")).unwrap();
    sca.add_sc(SoundChange::new("s", "z", "_")).unwrap();
    let subs = sca.compile_all().unwrap();
    // Two sub-rules from the correlated rule, adjacent, then the plain rule.
    assert_eq!(subs.len(), 3);
    assert_eq!(subs[0].pat(), "(?P<pre>a)p(?P<post>a)");
    assert_eq!(subs[1].pat(), "(?P<pre>a)t(?P<post>a)");
    assert_eq!(subs[2].pat(), "(?P<pre>)s(?P<post>)");
    assert_eq!(apply_chain(&subs, "apasa").unwrap(), "abaza");
}

#[test]
fn pipeline_feeds_later_rules_with_stabilized_output() {
    // Each substitution runs to its own fixpoint before the next one starts.
    let first = Substitute::new("aa", "a").unwrap();
    let second = Substitute::new("a", "o").unwrap();
    let subs = vec![first, second];
    assert_eq!(apply_chain(&subs, "aaaa").unwrap(), "o");
}

#[test]
fn error_descriptions_are_stable() {
    assert_eq!(BabelError::DeriveFromSelf.describe(), "Cannot derive from self!");
    assert_eq!(BabelError::GhostWord(3).describe(), "Ghost word!");
    assert_eq!(BabelError::IndexOutOfRange.describe(), "Index out of range!");
    assert_eq!(BabelError::InvalidElement.describe(), "Invalid element!");
    assert_eq!(BabelError::InvalidSCEnvironment.describe(), "Invalid SC environment!");
    assert_eq!(BabelError::InvalidSCTarget.describe(), "Invalid SC target!");
    assert_eq!(BabelError::PatternError(1).describe(), "Invalid pattern!");
    assert_eq!(BabelError::NonTerminatingRule.describe(), "Rule did not converge!");
}
