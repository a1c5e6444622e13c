//! Executable text substitutions.
//!
//! A [`Replace`] is an authored pattern/replacement pair; a [`Substitute`] is
//! the executable unit the pipelines run. Applying a substitution means
//! rewriting the string repeatedly until it stabilizes (a fixpoint), subject
//! to an iteration cap so that a self-feeding rule is reported as
//! [`BabelError::NonTerminatingRule`] instead of looping forever.
//!
//! The pattern matching itself is done by the `regex` crate behind two small
//! trusted wrappers; everything above them is verified.

use vstd::prelude::*;
use vstd::string::StringExecFns;
use crate::error::BabelError;

verus! {

/// How often a single substitution may rewrite a string before the engine
/// declares that the rule does not converge.
pub const FIX_LIMIT: usize = 64;

/// Whether the pattern text is a valid expression.
///
/// This names the success of `regex::Regex::new`, which depends on the
/// pattern text alone.
pub uninterp spec fn regex_valid(pat: Seq<char>) -> bool;

/// The text after one pass of replacing every non-overlapping match of `pat`
/// in `text` by `rep`.
///
/// This names the result of `regex::Regex::replace_all`, which depends on the
/// pattern, the haystack and the replacement alone.
pub uninterp spec fn rewritten(pat: Seq<char>, text: Seq<char>, rep: Seq<char>) -> Seq<char>;

/// Relies on regex::Regex::new: it returns Ok exactly when the pattern is
/// valid expression syntax (within the default size limit), a property of the
/// pattern text alone.
#[verifier::external_body]
fn pattern_compiles(pat: &str) -> (r: bool)
    ensures
        r == regex_valid(pat@),
{
    regex::Regex::new(pat).is_ok()
}

/// Relies on regex::Regex::new and regex::Regex::replace_all: replacing every
/// non-overlapping match of the pattern in the text (resolving `$name`
/// references in the replacement) is a function of the pattern, the text and
/// the replacement alone.
#[verifier::external_body]
fn rewrite_once(pat: &str, text: &str, rep: &str) -> (r: String)
    requires
        regex_valid(pat@),
    ensures
        r@ == rewritten(pat@, text@, rep@),
{
    regex::Regex::new(pat).unwrap().replace_all(text, rep).into_owned()
}

/// The mathematical content of a pattern/replacement pair.
pub ghost struct PatRepl {
    pub pat: Seq<char>,
    pub repl: Seq<char>,
}

/// An authored pattern/replacement pair whose pattern is known to be valid.
#[derive(Debug)]
pub struct Replace {
    pat: String,
    repl: String,
}

impl View for Replace {
    type V = PatRepl;

    closed spec fn view(&self) -> PatRepl {
        PatRepl { pat: self.pat@, repl: self.repl@ }
    }
}

impl Replace {
    #[verifier::type_invariant]
    spec fn wf(self) -> bool {
        regex_valid(self.pat@)
    }

    /// Validate the pattern and wrap the pair; an invalid pattern is rejected
    /// at creation time.
    pub fn new(pat: &str, repl: &str) -> (r: Result<Replace, BabelError>)
        ensures
            r is Ok <==> regex_valid(pat@),
            r matches Ok(v) ==> v@ == (PatRepl { pat: pat@, repl: repl@ }),
            r is Err ==> r == Err::<Replace, BabelError>(BabelError::PatternError(0)),
    {
        if pattern_compiles(pat) {
            Ok(Replace { pat: String::from_str(pat), repl: String::from_str(repl) })
        } else {
            Err(BabelError::PatternError(0))
        }
    }

    /// The pattern text.
    pub fn pat(&self) -> (r: &str)
        ensures
            r@ == self@.pat,
    {
        self.pat.as_str()
    }

    /// The replacement text.
    pub fn repl(&self) -> (r: &str)
        ensures
            r@ == self@.repl,
    {
        self.repl.as_str()
    }

    /// An identical copy.
    pub fn duplicate(&self) -> (r: Replace)
        ensures
            r@ == self@,
    {
        proof {
            use_type_invariant(self);
        }
        Replace { pat: self.pat.clone(), repl: self.repl.clone() }
    }
}

/// A compiled substitution: the executable unit of every pipeline.
#[derive(Debug)]
pub struct Substitute {
    pat: String,
    repl: String,
}

impl View for Substitute {
    type V = PatRepl;

    closed spec fn view(&self) -> PatRepl {
        PatRepl { pat: self.pat@, repl: self.repl@ }
    }
}

/// The views of a list of substitutions, in order.
pub open spec fn sub_views(subs: Seq<Substitute>) -> Seq<PatRepl> {
    subs.map_values(|s: Substitute| s@)
}

/// Rewrite `text` repeatedly (up to `fuel` rewrites) until one pass changes
/// nothing; `None` when the fuel runs out before that.
pub open spec fn spec_fix_point(
    pat: Seq<char>,
    rep: Seq<char>,
    text: Seq<char>,
    fuel: nat,
) -> Option<Seq<char>>
    decreases fuel,
{
    if rewritten(pat, text, rep) == text {
        Some(text)
    } else if fuel == 0 {
        None
    } else {
        spec_fix_point(pat, rep, rewritten(pat, text, rep), (fuel - 1) as nat)
    }
}

/// Run `text` through each substitution in order, stabilizing after each one;
/// `None` as soon as one substitution fails to stabilize.
pub open spec fn chain_fix(subs: Seq<PatRepl>, text: Seq<char>) -> Option<Seq<char>>
    decreases subs.len(),
{
    if subs.len() == 0 {
        Some(text)
    } else {
        match spec_fix_point(subs[0].pat, subs[0].repl, text, FIX_LIMIT as nat) {
            Some(s) => chain_fix(subs.drop_first(), s),
            None => None,
        }
    }
}

/// Law: a stabilized string is a fixpoint, so applying the same substitution
/// twice in a row yields identical output both times.
pub proof fn lemma_fix_point_idempotent(pat: Seq<char>, rep: Seq<char>, text: Seq<char>, fuel: nat)
    ensures
        spec_fix_point(pat, rep, text, fuel) matches Some(s) ==> {
            &&& rewritten(pat, s, rep) == s
            &&& spec_fix_point(pat, rep, s, fuel) == Some(s)
        },
    decreases fuel,
{
    if rewritten(pat, text, rep) == text {
    } else if fuel == 0 {
    } else {
        lemma_fix_point_idempotent(pat, rep, rewritten(pat, text, rep), (fuel - 1) as nat);
    }
}

impl Substitute {
    #[verifier::type_invariant]
    spec fn wf(self) -> bool {
        regex_valid(self.pat@)
    }

    /// Validate the pattern and build the substitution.
    pub fn new(pat: &str, repl: &str) -> (r: Result<Substitute, BabelError>)
        ensures
            r is Ok <==> regex_valid(pat@),
            r matches Ok(v) ==> v@ == (PatRepl { pat: pat@, repl: repl@ }),
            r is Err ==> r == Err::<Substitute, BabelError>(BabelError::PatternError(0)),
    {
        if pattern_compiles(pat) {
            Ok(Substitute { pat: String::from_str(pat), repl: String::from_str(repl) })
        } else {
            Err(BabelError::PatternError(0))
        }
    }

    /// The compiled substitution of an authored pair.
    pub fn from(original: &Replace) -> (r: Substitute)
        ensures
            r@ == original@,
    {
        proof {
            use_type_invariant(original);
        }
        Substitute { pat: original.pat.clone(), repl: original.repl.clone() }
    }

    /// The pattern text.
    pub fn pat(&self) -> (r: &str)
        ensures
            r@ == self@.pat,
    {
        self.pat.as_str()
    }

    /// The replacement text.
    pub fn repl(&self) -> (r: &str)
        ensures
            r@ == self@.repl,
    {
        self.repl.as_str()
    }

    /// Apply the substitution to `text` until it stabilizes.
    pub fn apply(&self, text: &str) -> (r: Result<String, BabelError>)
        ensures
            match spec_fix_point(self@.pat, self@.repl, text@, FIX_LIMIT as nat) {
                Some(s) => r matches Ok(v) && v@ == s,
                None => r == Err::<String, BabelError>(BabelError::NonTerminatingRule),
            },
    {
        proof {
            use_type_invariant(self);
        }
        let mut cur = String::from_str(text);
        let mut i: usize = 0;
        loop
            invariant
                regex_valid(self@.pat),
                i <= FIX_LIMIT,
                spec_fix_point(self@.pat, self@.repl, text@, FIX_LIMIT as nat)
                    == spec_fix_point(self@.pat, self@.repl, cur@, (FIX_LIMIT - i) as nat),
            decreases FIX_LIMIT - i,
        {
            let next = rewrite_once(self.pat.as_str(), cur.as_str(), self.repl.as_str());
            if next == cur {
                return Ok(cur);
            }
            if i == FIX_LIMIT {
                return Err(BabelError::NonTerminatingRule);
            }
            cur = next;
            i = i + 1;
        }
    }
}

/// Run `text` through each substitution in order, stabilizing after each one.
pub fn apply_chain(subs: &Vec<Substitute>, text: &str) -> (r: Result<String, BabelError>)
    ensures
        match chain_fix(sub_views(subs@), text@) {
            Some(s) => r matches Ok(v) && v@ == s,
            None => r == Err::<String, BabelError>(BabelError::NonTerminatingRule),
        },
{
    let mut cur = String::from_str(text);
    proof {
        assert(sub_views(subs@).skip(0) =~= sub_views(subs@));
    }
    let mut i: usize = 0;
    while i < subs.len()
        invariant
            i <= subs@.len(),
            chain_fix(sub_views(subs@), text@) == chain_fix(
                sub_views(subs@).skip(i as int),
                cur@,
            ),
        decreases subs@.len() - i,
    {
        proof {
            assert(sub_views(subs@).skip(i as int)[0] == subs@[i as int]@);
            assert(sub_views(subs@).skip(i as int).drop_first() =~= sub_views(subs@).skip(
                i as int + 1,
            ));
        }
        let next = match subs[i].apply(cur.as_str()) {
            Ok(v) => v,
            Err(e) => {
                return Err(e);
            },
        };
        cur = next;
        i = i + 1;
    }
    proof {
        assert(sub_views(subs@).skip(subs@.len() as int) =~= Seq::<PatRepl>::empty());
    }
    Ok(cur)
}

} // verus!
