//! The category table and the sound-change rule compiler.
//!
//! A sound change declares a target, a replacement, and an environment of the
//! form `before_after`. Compilation builds the working pattern
//! `(?P<pre>before)target(?P<post>after)` and the replacement template
//! `${pre}replacement${post}`, then substitutes every category variable with
//! a bracketed character class. If the replacement itself references a
//! category, the rule is positionally correlated and compiles to one fully
//! concrete substitution per aligned position instead.

use vstd::prelude::*;
use vstd::string::StrSliceExecFns;
use vstd::string::StringExecFns;
use crate::error::BabelError;
use crate::pattern::{PatRepl, Substitute, sub_views, regex_valid};
use crate::text::{
    spec_replace_char, spec_count_char, spec_find_char, replace_char, count_char, find_char,
    lemma_find_char_props,
};

verus! {

/// A declarative sound change: target, replacement, environment.
#[derive(Debug)]
pub struct SoundChange {
    tg: String,
    repl: String,
    env: String,
}

/// The mathematical content of a sound change.
pub ghost struct SoundChangeView {
    pub tg: Seq<char>,
    pub repl: Seq<char>,
    pub env: Seq<char>,
}

impl View for SoundChange {
    type V = SoundChangeView;

    closed spec fn view(&self) -> SoundChangeView {
        SoundChangeView { tg: self.tg@, repl: self.repl@, env: self.env@ }
    }
}

impl SoundChange {
    /// Wrap the three authored fields; nothing is validated here.
    pub fn new(tg: &str, repl: &str, env: &str) -> (r: SoundChange)
        ensures
            r@ == (SoundChangeView { tg: tg@, repl: repl@, env: env@ }),
    {
        SoundChange {
            tg: String::from_str(tg),
            repl: String::from_str(repl),
            env: String::from_str(env),
        }
    }

    /// The target text.
    pub fn tg(&self) -> (r: &str)
        ensures
            r@ == self@.tg,
    {
        self.tg.as_str()
    }

    /// The replacement text.
    pub fn repl(&self) -> (r: &str)
        ensures
            r@ == self@.repl,
    {
        self.repl.as_str()
    }

    /// The environment text.
    pub fn env(&self) -> (r: &str)
        ensures
            r@ == self@.env,
    {
        self.env.as_str()
    }

    /// An identical copy.
    pub fn duplicate(&self) -> (r: SoundChange)
        ensures
            r@ == self@,
    {
        SoundChange { tg: self.tg.clone(), repl: self.repl.clone(), env: self.env.clone() }
    }
}

/// The views of a category table, in order.
pub open spec fn cat_views(cat: Seq<(char, String)>) -> Seq<(char, Seq<char>)> {
    cat.map_values(|p: (char, String)| (p.0, p.1@))
}

/// The views of a list of sound changes, in order.
pub open spec fn sc_views(sc: Seq<SoundChange>) -> Seq<SoundChangeView> {
    sc.map_values(|s: SoundChange| s@)
}

/// The index of the first entry of `cats` keyed by `key`, or -1 if none is.
pub open spec fn cat_find(cats: Seq<(char, Seq<char>)>, key: char) -> int
    decreases cats.len(),
{
    if cats.len() == 0 {
        -1
    } else if cats[0].0 == key {
        0
    } else {
        let rest = cat_find(cats.drop_first(), key);
        if rest < 0 {
            -1
        } else {
            rest + 1
        }
    }
}

/// `cat_find` returns a genuine first occurrence.
pub proof fn lemma_cat_find_props(cats: Seq<(char, Seq<char>)>, key: char)
    ensures
        cat_find(cats, key) >= 0 ==> {
            &&& cat_find(cats, key) < cats.len()
            &&& cats[cat_find(cats, key)].0 == key
            &&& forall|j: int| 0 <= j < cat_find(cats, key) ==> cats[j].0 != key
        },
        cat_find(cats, key) < 0 ==> forall|j: int| 0 <= j < cats.len() ==> cats[j].0 != key,
    decreases cats.len(),
{
    if cats.len() > 0 && cats[0].0 != key {
        lemma_cat_find_props(cats.drop_first(), key);
        assert(forall|j: int|
            1 <= j < cats.len() ==> cats[j] == cats.drop_first()[j - 1]);
    }
}

/// A first occurrence seen by a scan is the one `cat_find` names.
proof fn lemma_cat_find_agrees(cats: Seq<(char, Seq<char>)>, key: char, i: int)
    requires
        0 <= i < cats.len(),
        cats[i].0 == key,
        forall|j: int| 0 <= j < i ==> cats[j].0 != key,
    ensures
        cat_find(cats, key) == i,
    decreases cats.len(),
{
    if i > 0 {
        assert(cats.drop_first()[i - 1].0 == key);
        assert(forall|j: int|
            0 <= j < i - 1 ==> cats.drop_first()[j] == cats[j + 1] && cats[j + 1].0 != key);
        lemma_cat_find_agrees(cats.drop_first(), key, i - 1);
    }
}

/// The bracketed character class built from a category's graphemes.
pub open spec fn bracket(content: Seq<char>) -> Seq<char> {
    "["@ + content + "]"@
}

/// The single grapheme of `content` at position `idx`, or nothing when the
/// position is out of range.
pub open spec fn pick(content: Seq<char>, idx: int) -> Seq<char> {
    if 0 <= idx < content.len() {
        content.subrange(idx, idx + 1)
    } else {
        Seq::empty()
    }
}

/// Substitute every category variable in `s` by its bracketed class, one
/// table entry after the other, in table order.
pub open spec fn expand_classes(cats: Seq<(char, Seq<char>)>, s: Seq<char>) -> Seq<char>
    decreases cats.len(),
{
    if cats.len() == 0 {
        s
    } else {
        expand_classes(cats.drop_first(), spec_replace_char(s, cats[0].0, bracket(cats[0].1)))
    }
}

/// Substitute every category variable in `s` by its single grapheme at
/// position `idx`, one table entry after the other, in table order.
pub open spec fn subst_at(cats: Seq<(char, Seq<char>)>, s: Seq<char>, idx: int) -> Seq<char>
    decreases cats.len(),
{
    if cats.len() == 0 {
        s
    } else {
        subst_at(cats.drop_first(), spec_replace_char(s, cats[0].0, pick(cats[0].1, idx)), idx)
    }
}

/// Split an environment on its separator marker: defined exactly when the
/// marker occurs once, yielding the "before" and "after" patterns.
pub open spec fn spec_env_split(env: Seq<char>) -> Option<(Seq<char>, Seq<char>)> {
    if spec_count_char(env, '_') == 1 {
        let i = spec_find_char(env, '_');
        Some((env.take(i), env.skip(i + 1)))
    } else {
        None
    }
}

/// The compiled pattern/replacement pair of one concrete rule, or the error
/// its declaration earns.
pub open spec fn spec_unit(cats: Seq<(char, Seq<char>)>, sc: SoundChangeView) -> Result<
    PatRepl,
    BabelError,
> {
    match spec_env_split(sc.env) {
        None => Err(BabelError::InvalidSCEnvironment),
        Some((before, after)) => {
            let pat = expand_classes(
                cats,
                "(?P<pre>"@ + before + ")"@ + sc.tg + "(?P<post>"@ + after + ")"@,
            );
            let rep = "${pre}"@ + sc.repl + "${post}"@;
            if regex_valid(pat) {
                Ok(PatRepl { pat: pat, repl: rep })
            } else {
                Err(BabelError::PatternError(0))
            }
        },
    }
}

/// The minimum grapheme-sequence length among the categories that the
/// characters of `s` reference; `None` when `s` references no category.
pub open spec fn spec_min_cat(cats: Seq<(char, Seq<char>)>, s: Seq<char>) -> Option<nat>
    decreases s.len(),
{
    if s.len() == 0 {
        None
    } else {
        let rest = spec_min_cat(cats, s.drop_last());
        let f = cat_find(cats, s.last());
        if f >= 0 {
            let l = cats[f].1.len();
            match rest {
                Some(m) => Some(if l < m { l } else { m }),
                None => Some(l),
            }
        } else {
            rest
        }
    }
}

/// The rule with every category variable in target and replacement resolved
/// to the grapheme at position `idx`.
pub open spec fn spec_sub_at(
    cats: Seq<(char, Seq<char>)>,
    sc: SoundChangeView,
    idx: int,
) -> SoundChangeView {
    SoundChangeView {
        tg: subst_at(cats, sc.tg, idx),
        repl: subst_at(cats, sc.repl, idx),
        env: sc.env,
    }
}

/// The concrete substitutions a correlated rule compiles to, one per position
/// from 0 up to `m`, or the first error met.
pub open spec fn spec_units(cats: Seq<(char, Seq<char>)>, sc: SoundChangeView, m: nat) -> Result<
    Seq<PatRepl>,
    BabelError,
>
    decreases m,
{
    if m == 0 {
        Ok(Seq::empty())
    } else {
        match spec_units(cats, sc, (m - 1) as nat) {
            Ok(pre) => match spec_unit(cats, spec_sub_at(cats, sc, m - 1)) {
                Ok(u) => Ok(pre.push(u)),
                Err(e) => Err(e),
            },
            Err(e) => Err(e),
        }
    }
}

/// What compiling one declared rule yields: the environment is validated
/// first, whatever the rule's shape; then a single class-expanded
/// substitution for an uncorrelated rule, a correlated expansion otherwise.
pub open spec fn spec_compile(cats: Seq<(char, Seq<char>)>, sc: SoundChangeView) -> Result<
    Seq<PatRepl>,
    BabelError,
> {
    if spec_env_split(sc.env) is None {
        Err(BabelError::InvalidSCEnvironment)
    } else if spec_min_cat(cats, sc.repl) is None {
        match spec_unit(cats, sc) {
            Ok(u) => Ok(seq![u]),
            Err(e) => Err(e),
        }
    } else {
        match spec_min_cat(cats, sc.tg) {
            None => Err(BabelError::InvalidSCTarget),
            Some(mt) => {
                let mr = spec_min_cat(cats, sc.repl)->Some_0;
                spec_units(cats, sc, if mt < mr { mt } else { mr })
            },
        }
    }
}

/// What compiling every declared rule in list order yields: the concatenation
/// of the per-rule results, or the first error met; a pattern failure names
/// the offending rule by its list index.
pub open spec fn spec_compile_all(
    cats: Seq<(char, Seq<char>)>,
    scs: Seq<SoundChangeView>,
) -> Result<Seq<PatRepl>, BabelError>
    decreases scs.len(),
{
    if scs.len() == 0 {
        Ok(Seq::empty())
    } else {
        match spec_compile_all(cats, scs.drop_last()) {
            Ok(pre) => match spec_compile(cats, scs.last()) {
                Ok(us) => Ok(pre + us),
                Err(BabelError::PatternError(_)) => Err(
                    BabelError::PatternError((scs.len() - 1) as usize),
                ),
                Err(e) => Err(e),
            },
            Err(e) => Err(e),
        }
    }
}

/// An error met at one position decides the whole correlated expansion.
proof fn lemma_units_err(cats: Seq<(char, Seq<char>)>, sc: SoundChangeView, m: nat, k: nat)
    requires
        m <= k,
        spec_units(cats, sc, m) is Err,
    ensures
        spec_units(cats, sc, k) == spec_units(cats, sc, m),
    decreases k,
{
    if k > m {
        lemma_units_err(cats, sc, m, (k - 1) as nat);
    }
}

/// The category table paired with the declared sound changes of a language.
#[derive(Debug)]
pub struct SCA {
    cat: Vec<(char, String)>,
    sc: Vec<SoundChange>,
}

/// The mathematical content of a sound-change set.
pub ghost struct ScaView {
    pub cats: Seq<(char, Seq<char>)>,
    pub scs: Seq<SoundChangeView>,
}

impl View for SCA {
    type V = ScaView;

    closed spec fn view(&self) -> ScaView {
        ScaView { cats: cat_views(self.cat@), scs: sc_views(self.sc@) }
    }
}

impl SCA {
    /// Every category variable keys at most one table entry.
    #[verifier::type_invariant]
    spec fn wf(self) -> bool {
        forall|i: int, j: int|
            0 <= i < j < self.cat@.len() ==> self.cat@[i].0 != self.cat@[j].0
    }

    /// An empty sound-change set.
    pub fn new() -> (r: SCA)
        ensures
            r@.cats == Seq::<(char, Seq<char>)>::empty(),
            r@.scs == Seq::<SoundChangeView>::empty(),
    {
        let r = SCA { cat: Vec::new(), sc: Vec::new() };
        proof {
            assert(r@.cats =~= Seq::<(char, Seq<char>)>::empty());
            assert(r@.scs =~= Seq::<SoundChangeView>::empty());
        }
        r
    }

    /// The category table, as key/content pairs in table order.
    pub fn cat(&self) -> (r: &Vec<(char, String)>)
        ensures
            cat_views(r@) == self@.cats,
    {
        &self.cat
    }

    /// The declared sound changes, in list order.
    pub fn sc(&self) -> (r: &Vec<SoundChange>)
        ensures
            sc_views(r@) == self@.scs,
    {
        &self.sc
    }

    /// The table position keyed by `name`, if any.
    pub(crate) fn find_cat(&self, name: char) -> (r: Option<usize>)
        ensures
            match r {
                Some(i) => cat_find(self@.cats, name) == i as int && i < self@.cats.len(),
                None => cat_find(self@.cats, name) < 0,
            },
    {
        let ghost cats = self@.cats;
        let mut i: usize = 0;
        while i < self.cat.len()
            invariant
                i <= self.cat@.len(),
                cats == cat_views(self.cat@),
                forall|j: int| 0 <= j < i ==> cats[j].0 != name,
            decreases self.cat@.len() - i,
        {
            if self.cat[i].0 == name {
                proof {
                    lemma_cat_find_agrees(cats, name, i as int);
                }
                return Some(i);
            }
            i = i + 1;
        }
        proof {
            lemma_cat_find_props(cats, name);
        }
        None
    }

    /// Store or overwrite the table entry keyed by `name`.
    pub fn add_cat(&mut self, name: char, content: &str)
        ensures
            final(self)@.scs == old(self)@.scs,
            match cat_find(old(self)@.cats, name) {
                i if i >= 0 => final(self)@.cats == old(self)@.cats.update(
                    i,
                    (name, content@),
                ),
                _ => final(self)@.cats == old(self)@.cats.push((name, content@)),
            },
    {
        proof {
            use_type_invariant(&*self);
        }
        let found = self.find_cat(name);
        let mut cat: Vec<(char, String)> = Vec::new();
        std::mem::swap(&mut cat, &mut self.cat);
        let ghost oldcat = cat@;
        match found {
            Some(i) => {
                cat.set(i, (name, String::from_str(content)));
            },
            None => {
                cat.push((name, String::from_str(content)));
            },
        }
        proof {
            lemma_cat_find_props(cat_views(oldcat), name);
            assert(forall|j: int|
                0 <= j < oldcat.len() ==> cat_views(oldcat)[j].0 == oldcat[j].0);
            assert(forall|a: int, b: int| 0 <= a < b < cat@.len() ==> cat@[a].0 != cat@[b].0);
        }
        self.cat = cat;
        proof {
            match cat_find(old(self)@.cats, name) {
                i if i >= 0 => {
                    assert(final(self)@.cats =~= old(self)@.cats.update(i, (name, content@)));
                },
                _ => {
                    assert(final(self)@.cats =~= old(self)@.cats.push((name, content@)));
                },
            }
        }
    }

    /// Remove the table entry keyed by `name` and hand its content back;
    /// an absent key is reported as out of range.
    pub fn rm_cat(&mut self, name: char) -> (r: Result<String, BabelError>)
        ensures
            final(self)@.scs == old(self)@.scs,
            match cat_find(old(self)@.cats, name) {
                i if i >= 0 => {
                    &&& r matches Ok(c) && c@ == old(self)@.cats[i].1
                    &&& final(self)@.cats == old(self)@.cats.remove(i)
                },
                _ => r == Err::<String, BabelError>(BabelError::IndexOutOfRange) && *final(self)
                    == *old(self),
            },
    {
        proof {
            use_type_invariant(&*self);
        }
        let found = self.find_cat(name);
        match found {
            Some(i) => {
                let mut cat: Vec<(char, String)> = Vec::new();
                std::mem::swap(&mut cat, &mut self.cat);
                let (_, content) = cat.remove(i);
                self.cat = cat;
                proof {
                    assert(final(self)@.cats =~= old(self)@.cats.remove(i as int));
                }
                Ok(content)
            },
            None => Err(BabelError::IndexOutOfRange),
        }
    }

    /// The minimum content length among the categories referenced by `s`.
    fn min_cat(&self, s: &str) -> (r: Option<usize>)
        ensures
            match r {
                Some(m) => spec_min_cat(self@.cats, s@) == Some(m as nat),
                None => spec_min_cat(self@.cats, s@) is None,
            },
    {
        let ghost cats = self@.cats;
        let n = s.unicode_len();
        let mut acc: Option<usize> = None;
        let mut i: usize = 0;
        proof {
            assert(s@.take(0) =~= Seq::<char>::empty());
        }
        while i < n
            invariant
                n == s@.len(),
                i <= n,
                cats == cat_views(self.cat@),
                match acc {
                    Some(m) => spec_min_cat(cats, s@.take(i as int)) == Some(m as nat),
                    None => spec_min_cat(cats, s@.take(i as int)) is None,
                },
            decreases n - i,
        {
            let c = s.get_char(i);
            proof {
                assert(s@.take(i as int + 1).drop_last() =~= s@.take(i as int));
                assert(s@.take(i as int + 1).last() == s@[i as int]);
            }
            match self.find_cat(c) {
                Some(j) => {
                    let l = self.cat[j].1.as_str().unicode_len();
                    proof {
                        assert(cats[j as int].1 == self.cat@[j as int].1@);
                    }
                    acc = match acc {
                        Some(m) => if l < m {
                            Some(l)
                        } else {
                            Some(m)
                        },
                        None => Some(l),
                    };
                },
                None => {},
            }
            i = i + 1;
        }
        proof {
            assert(s@.take(n as int) =~= s@);
        }
        acc
    }

    /// Substitute every category variable in `s` by its grapheme at `idx`.
    fn subst_string(&self, s: &str, idx: usize) -> (r: String)
        ensures
            r@ == subst_at(self@.cats, s@, idx as int),
    {
        let ghost cats = self@.cats;
        let mut cur = String::from_str(s);
        let mut i: usize = 0;
        proof {
            assert(cats.skip(0) =~= cats);
        }
        while i < self.cat.len()
            invariant
                i <= self.cat@.len(),
                cats == cat_views(self.cat@),
                subst_at(cats, s@, idx as int) == subst_at(
                    cats.skip(i as int),
                    cur@,
                    idx as int,
                ),
            decreases self.cat@.len() - i,
        {
            let key = self.cat[i].0;
            let content = self.cat[i].1.as_str();
            let l = content.unicode_len();
            let piece: &str = if idx < l {
                content.substring_char(idx, idx + 1)
            } else {
                ""
            };
            proof {
                reveal_strlit("");
                assert(""@ =~= Seq::<char>::empty());
                assert(cats.skip(i as int)[0] == cats[i as int]);
                assert(cats[i as int].1 == content@);
                assert(piece@ == pick(content@, idx as int));
                assert(cats.skip(i as int).drop_first() =~= cats.skip(i as int + 1));
            }
            cur = replace_char(cur.as_str(), key, piece);
            i = i + 1;
        }
        proof {
            assert(cats.skip(self.cat@.len() as int) =~= Seq::<(char, Seq<char>)>::empty());
        }
        cur
    }

    /// Expand every category variable in `s` to its bracketed class.
    fn expand_string(&self, s: &str) -> (r: String)
        ensures
            r@ == expand_classes(self@.cats, s@),
    {
        let ghost cats = self@.cats;
        let mut cur = String::from_str(s);
        let mut i: usize = 0;
        proof {
            assert(cats.skip(0) =~= cats);
        }
        while i < self.cat.len()
            invariant
                i <= self.cat@.len(),
                cats == cat_views(self.cat@),
                expand_classes(cats, s@) == expand_classes(cats.skip(i as int), cur@),
            decreases self.cat@.len() - i,
        {
            let key = self.cat[i].0;
            let mut cls = String::from_str("[");
            cls.append(self.cat[i].1.as_str());
            cls.append("]");
            proof {
                assert(cats.skip(i as int)[0] == cats[i as int]);
                assert(cls@ == bracket(cats[i as int].1));
                assert(cats.skip(i as int).drop_first() =~= cats.skip(i as int + 1));
            }
            cur = replace_char(cur.as_str(), key, cls.as_str());
            i = i + 1;
        }
        proof {
            assert(cats.skip(self.cat@.len() as int) =~= Seq::<(char, Seq<char>)>::empty());
        }
        cur
    }

    /// Compile one concrete rule: split the environment, build the working
    /// pattern and replacement template, and expand category classes.
    fn compile_unit(&self, sc: &SoundChange) -> (r: Result<Substitute, BabelError>)
        ensures
            match spec_unit(self@.cats, sc@) {
                Ok(u) => r matches Ok(v) && v@ == u,
                Err(e) => r == Err::<Substitute, BabelError>(e),
            },
    {
        let env = sc.env();
        let cnt = count_char(env, '_');
        if cnt != 1 {
            return Err(BabelError::InvalidSCEnvironment);
        }
        let pos = match find_char(env, '_') {
            Some(p) => p,
            None => {
                proof {
                    crate::text::lemma_count_pos_has_occurrence(env@, '_');
                    lemma_find_char_props(env@, '_');
                }
                unreached()
            },
        };
        proof {
            lemma_find_char_props(env@, '_');
        }
        let n = env.unicode_len();
        let before = env.substring_char(0, pos);
        let after = env.substring_char(pos + 1, n);
        proof {
            assert(before@ =~= env@.take(pos as int));
            assert(after@ =~= env@.skip(pos as int + 1));
        }
        let mut raw = String::from_str("(?P<pre>");
        raw.append(before);
        raw.append(")");
        raw.append(sc.tg());
        raw.append("(?P<post>");
        raw.append(after);
        raw.append(")");
        let pat = self.expand_string(raw.as_str());
        let mut rep = String::from_str("${pre}");
        rep.append(sc.repl());
        rep.append("${post}");
        match Substitute::new(pat.as_str(), rep.as_str()) {
            Ok(sub) => Ok(sub),
            Err(_) => Err(BabelError::PatternError(0)),
        }
    }

    /// Compile one declared rule into its list of concrete substitutions:
    /// the environment must split into exactly two parts whatever the rule's
    /// shape; positional correlation is expanded where the replacement
    /// references a category.
    pub fn compile(&self, sc: &SoundChange) -> (r: Result<Vec<Substitute>, BabelError>)
        ensures
            match spec_compile(self@.cats, sc@) {
                Ok(us) => r matches Ok(v) && sub_views(v@) == us,
                Err(e) => r == Err::<Vec<Substitute>, BabelError>(e),
            },
    {
        let ghost cats = self@.cats;
        if count_char(sc.env(), '_') != 1 {
            return Err(BabelError::InvalidSCEnvironment);
        }
        let min_repl = self.min_cat(sc.repl());
        match min_repl {
            None => {
                match self.compile_unit(sc) {
                    Ok(u) => {
                        let ghost uv = u@;
                        let subs = vec![u];
                        proof {
                            assert(sub_views(subs@) =~= seq![uv]);
                        }
                        Ok(subs)
                    },
                    Err(e) => Err(e),
                }
            },
            Some(mr) => {
                let mt = match self.min_cat(sc.tg()) {
                    Some(v) => v,
                    None => {
                        return Err(BabelError::InvalidSCTarget);
                    },
                };
                let m = if mt < mr {
                    mt
                } else {
                    mr
                };
                let mut out: Vec<Substitute> = Vec::new();
                let mut idx: usize = 0;
                proof {
                    assert(sub_views(out@) =~= Seq::<PatRepl>::empty());
                }
                while idx < m
                    invariant
                        idx <= m,
                        cats == self@.cats,
                        m as nat == (if (mt as nat) < (mr as nat) {
                            mt as nat
                        } else {
                            mr as nat
                        }),
                        spec_min_cat(cats, sc@.tg) == Some(mt as nat),
                        spec_min_cat(cats, sc@.repl) == Some(mr as nat),
                        spec_units(cats, sc@, idx as nat) == Ok::<Seq<PatRepl>, BabelError>(
                            sub_views(out@),
                        ),
                    decreases m - idx,
                {
                    let tg2 = self.subst_string(sc.tg(), idx);
                    let repl2 = self.subst_string(sc.repl(), idx);
                    let sc2 = SoundChange::new(tg2.as_str(), repl2.as_str(), sc.env());
                    proof {
                        assert(sc2@ == spec_sub_at(cats, sc@, idx as int));
                    }
                    match self.compile_unit(&sc2) {
                        Ok(u) => {
                            let ghost pre = sub_views(out@);
                            let ghost uv = u@;
                            out.push(u);
                            proof {
                                assert(sub_views(out@) =~= pre.push(uv));
                            }
                        },
                        Err(e) => {
                            proof {
                                lemma_units_err(cats, sc@, idx as nat + 1, m as nat);
                            }
                            return Err(e);
                        },
                    }
                    idx = idx + 1;
                }
                Ok(out)
            },
        }
    }

    /// Compile every declared sound change in list order and concatenate the
    /// results: the sub-rules of one correlated rule stay adjacent and
    /// precede the next rule's.
    pub fn compile_all(&self) -> (r: Result<Vec<Substitute>, BabelError>)
        ensures
            match spec_compile_all(self@.cats, self@.scs) {
                Ok(us) => r matches Ok(v) && sub_views(v@) == us,
                Err(e) => r == Err::<Vec<Substitute>, BabelError>(e),
            },
    {
        let ghost cats = self@.cats;
        let ghost scs = self@.scs;
        let mut out: Vec<Substitute> = Vec::new();
        let mut i: usize = 0;
        proof {
            assert(sub_views(out@) =~= Seq::<PatRepl>::empty());
            assert(scs.take(0) =~= Seq::<SoundChangeView>::empty());
        }
        while i < self.sc.len()
            invariant
                i <= self.sc@.len(),
                cats == self@.cats,
                scs == self@.scs,
                scs.len() == self.sc@.len(),
                spec_compile_all(cats, scs.take(i as int)) == Ok::<Seq<PatRepl>, BabelError>(
                    sub_views(out@),
                ),
            decreases self.sc@.len() - i,
        {
            proof {
                assert(scs.take(i as int + 1).drop_last() =~= scs.take(i as int));
                assert(scs.take(i as int + 1).last() == scs[i as int]);
                assert(scs[i as int] == self.sc@[i as int]@);
            }
            let mut subset = match self.compile(&self.sc[i]) {
                Ok(v) => v,
                Err(e) => {
                    let named = match e {
                        BabelError::PatternError(_) => BabelError::PatternError(i),
                        other => other,
                    };
                    proof {
                        assert(spec_compile_all(cats, scs.take(i as int + 1)) == Err::<
                            Seq<PatRepl>,
                            BabelError,
                        >(named));
                        lemma_compile_all_err(cats, scs, i as int + 1, scs.len() as int);
                        assert(scs.take(scs.len() as int) =~= scs);
                    }
                    return Err(named);
                },
            };
            let ghost pre = sub_views(out@);
            let ghost add = sub_views(subset@);
            out.append(&mut subset);
            proof {
                assert(sub_views(out@) =~= pre + add);
            }
            i = i + 1;
        }
        proof {
            assert(scs.take(scs.len() as int) =~= scs);
        }
        Ok(out)
    }

    /// Validate a rule against the current table, then append it.
    pub fn add_sc(&mut self, sc: SoundChange) -> (r: Result<(), BabelError>)
        ensures
            final(self)@.cats == old(self)@.cats,
            match spec_compile(old(self)@.cats, sc@) {
                Ok(_) => r is Ok && final(self)@.scs == old(self)@.scs.push(sc@),
                Err(e) => r == Err::<(), BabelError>(e) && *final(self) == *old(self),
            },
    {
        proof {
            use_type_invariant(&*self);
        }
        match self.compile(&sc) {
            Ok(_) => {
                let ghost scv = sc@;
                let mut list: Vec<SoundChange> = Vec::new();
                std::mem::swap(&mut list, &mut self.sc);
                list.push(sc);
                self.sc = list;
                proof {
                    assert(final(self)@.scs =~= old(self)@.scs.push(scv));
                }
                Ok(())
            },
            Err(e) => Err(e),
        }
    }

    /// Validate a rule, then overwrite the one at `idx`.
    pub fn alt_sc(&mut self, idx: usize, sc: SoundChange) -> (r: Result<(), BabelError>)
        ensures
            final(self)@.cats == old(self)@.cats,
            match spec_compile(old(self)@.cats, sc@) {
                Err(e) => r == Err::<(), BabelError>(e) && *final(self) == *old(self),
                Ok(_) => {
                    if idx < old(self)@.scs.len() {
                        r is Ok && final(self)@.scs == old(self)@.scs.update(idx as int, sc@)
                    } else {
                        r == Err::<(), BabelError>(BabelError::IndexOutOfRange) && *final(self)
                            == *old(self)
                    }
                },
            },
    {
        proof {
            use_type_invariant(&*self);
        }
        match self.compile(&sc) {
            Ok(_) => {
                if idx < self.sc.len() {
                    let ghost scv = sc@;
                    let mut list: Vec<SoundChange> = Vec::new();
                    std::mem::swap(&mut list, &mut self.sc);
                    list.set(idx, sc);
                    self.sc = list;
                    proof {
                        assert(final(self)@.scs =~= old(self)@.scs.update(idx as int, scv));
                    }
                    Ok(())
                } else {
                    Err(BabelError::IndexOutOfRange)
                }
            },
            Err(e) => Err(e),
        }
    }

    /// Validate a rule, then insert it at `idx`, shifting later rules.
    pub fn ins_sc(&mut self, idx: usize, sc: SoundChange) -> (r: Result<(), BabelError>)
        ensures
            final(self)@.cats == old(self)@.cats,
            match spec_compile(old(self)@.cats, sc@) {
                Err(e) => r == Err::<(), BabelError>(e) && *final(self) == *old(self),
                Ok(_) => {
                    if idx <= old(self)@.scs.len() {
                        r is Ok && final(self)@.scs == old(self)@.scs.insert(idx as int, sc@)
                    } else {
                        r == Err::<(), BabelError>(BabelError::IndexOutOfRange) && *final(self)
                            == *old(self)
                    }
                },
            },
    {
        proof {
            use_type_invariant(&*self);
        }
        match self.compile(&sc) {
            Ok(_) => {
                if idx <= self.sc.len() {
                    let ghost scv = sc@;
                    let mut list: Vec<SoundChange> = Vec::new();
                    std::mem::swap(&mut list, &mut self.sc);
                    list.insert(idx, sc);
                    self.sc = list;
                    proof {
                        assert(final(self)@.scs =~= old(self)@.scs.insert(idx as int, scv));
                    }
                    Ok(())
                } else {
                    Err(BabelError::IndexOutOfRange)
                }
            },
            Err(e) => Err(e),
        }
    }

    /// Remove the rule at `idx`, shifting later rules.
    pub fn rm_sc(&mut self, idx: usize) -> (r: Result<(), BabelError>)
        ensures
            final(self)@.cats == old(self)@.cats,
            if idx < old(self)@.scs.len() {
                r is Ok && final(self)@.scs == old(self)@.scs.remove(idx as int)
            } else {
                r == Err::<(), BabelError>(BabelError::IndexOutOfRange) && *final(self) == *old(
                    self,
                )
            },
    {
        proof {
            use_type_invariant(&*self);
        }
        if idx < self.sc.len() {
            let mut list: Vec<SoundChange> = Vec::new();
            std::mem::swap(&mut list, &mut self.sc);
            list.remove(idx);
            self.sc = list;
            proof {
                assert(final(self)@.scs =~= old(self)@.scs.remove(idx as int));
            }
            Ok(())
        } else {
            Err(BabelError::IndexOutOfRange)
        }
    }

    /// A sound-change set rebuilt wholesale, as persistence hands it back;
    /// a table with two entries under one key is refused.
    pub fn assemble(cat: Vec<(char, String)>, sc: Vec<SoundChange>) -> (r: Option<SCA>)
        ensures
            match r {
                Some(s) => {
                    &&& s@.cats == cat_views(cat@)
                    &&& s@.scs == sc_views(sc@)
                    &&& forall|i: int, j: int|
                        0 <= i < j < cat@.len() ==> cat@[i].0 != cat@[j].0
                },
                None => exists|i: int, j: int|
                    0 <= i < j < cat@.len() && cat@[i].0 == cat@[j].0,
            },
    {
        let mut i: usize = 0;
        while i < cat.len()
            invariant
                i <= cat@.len(),
                forall|a: int, b: int| 0 <= a < b < cat@.len() && b < i ==> cat@[a].0 != cat@[b].0,
            decreases cat@.len() - i,
        {
            let mut j: usize = 0;
            while j < i
                invariant
                    j <= i < cat@.len(),
                    forall|a: int| 0 <= a < j ==> cat@[a].0 != cat@[i as int].0,
                decreases i - j,
            {
                if cat[j].0 == cat[i].0 {
                    return None;
                }
                j = j + 1;
            }
            i = i + 1;
        }
        Some(SCA { cat, sc })
    }

    /// An identical copy.
    pub fn duplicate(&self) -> (r: SCA)
        ensures
            r@ == self@,
    {
        proof {
            use_type_invariant(self);
        }
        let mut cat: Vec<(char, String)> = Vec::new();
        let mut i: usize = 0;
        while i < self.cat.len()
            invariant
                i <= self.cat@.len(),
                cat@.len() == i,
                forall|j: int| 0 <= j < i ==> cat@[j].0 == self.cat@[j].0 && cat@[j].1@
                    == self.cat@[j].1@,
                forall|a: int, b: int|
                    0 <= a < b < self.cat@.len() ==> self.cat@[a].0 != self.cat@[b].0,
            decreases self.cat@.len() - i,
        {
            cat.push((self.cat[i].0, self.cat[i].1.clone()));
            i = i + 1;
        }
        let mut sc: Vec<SoundChange> = Vec::new();
        let mut k: usize = 0;
        while k < self.sc.len()
            invariant
                k <= self.sc@.len(),
                sc@.len() == k,
                forall|j: int| 0 <= j < k ==> sc@[j]@ == self.sc@[j]@,
            decreases self.sc@.len() - k,
        {
            sc.push(self.sc[k].duplicate());
            k = k + 1;
        }
        let r = SCA { cat, sc };
        proof {
            assert(r@.cats =~= self@.cats);
            assert(r@.scs =~= self@.scs);
        }
        r
    }
}

/// A string references a category exactly when the minimum content length
/// over its referenced categories is defined.
pub proof fn lemma_min_cat_references(cats: Seq<(char, Seq<char>)>, s: Seq<char>)
    ensures
        (spec_min_cat(cats, s) is Some) <==> exists|j: int|
            0 <= j < s.len() && cat_find(cats, s[j]) >= 0,
    decreases s.len(),
{
    if s.len() > 0 {
        lemma_min_cat_references(cats, s.drop_last());
        if cat_find(cats, s.last()) >= 0 {
            assert(cat_find(cats, s[s.len() - 1]) >= 0);
        } else {
            if spec_min_cat(cats, s) is Some {
                let j = choose|j: int|
                    0 <= j < s.drop_last().len() && cat_find(cats, s.drop_last()[j]) >= 0;
                assert(cat_find(cats, s[j]) >= 0);
            }
            if exists|j: int| 0 <= j < s.len() && cat_find(cats, s[j]) >= 0 {
                let j = choose|j: int| 0 <= j < s.len() && cat_find(cats, s[j]) >= 0;
                assert(j < s.len() - 1);
                assert(cat_find(cats, s.drop_last()[j]) >= 0);
            }
        }
    }
}

/// Law: a rule whose replacement references no category compiles to exactly
/// one substitution.
pub proof fn lemma_uncorrelated_single(cats: Seq<(char, Seq<char>)>, sc: SoundChangeView)
    requires
        !(exists|j: int| 0 <= j < sc.repl.len() && cat_find(cats, sc.repl[j]) >= 0),
        spec_compile(cats, sc) is Ok,
    ensures
        spec_compile(cats, sc)->Ok_0.len() == 1,
{
    lemma_min_cat_references(cats, sc.repl);
}

/// A successful correlated expansion yields one substitution per position.
proof fn lemma_units_len(cats: Seq<(char, Seq<char>)>, sc: SoundChangeView, m: nat)
    requires
        spec_units(cats, sc, m) is Ok,
    ensures
        spec_units(cats, sc, m)->Ok_0.len() == m,
    decreases m,
{
    if m > 0 {
        lemma_units_len(cats, sc, (m - 1) as nat);
    }
}

/// Law: a rule whose target references categories of minimum length `mt` and
/// whose replacement references categories of minimum length `mr` compiles to
/// exactly `min(mt, mr)` substitutions, one per position index.
pub proof fn lemma_correlated_count(
    cats: Seq<(char, Seq<char>)>,
    sc: SoundChangeView,
    mt: nat,
    mr: nat,
)
    requires
        spec_min_cat(cats, sc.tg) == Some(mt),
        spec_min_cat(cats, sc.repl) == Some(mr),
        spec_compile(cats, sc) is Ok,
    ensures
        spec_compile(cats, sc)->Ok_0.len() == (if mt < mr {
            mt
        } else {
            mr
        }),
{
    lemma_units_len(
        cats,
        sc,
        if mt < mr {
            mt
        } else {
            mr
        },
    );
}

/// Every character of a per-position substitution result is either a kept
/// character of the source that keys no category, or a character of some
/// category's content.
proof fn lemma_subst_at_chars(cats: Seq<(char, Seq<char>)>, s: Seq<char>, idx: int, c: char)
    requires
        subst_at(cats, s, idx).contains(c),
    ensures
        (s.contains(c) && cat_find(cats, c) < 0) || (exists|i: int|
            0 <= i < cats.len() && cats[i].1.contains(c)),
    decreases cats.len(),
{
    if cats.len() > 0 {
        let s1 = spec_replace_char(s, cats[0].0, pick(cats[0].1, idx));
        lemma_subst_at_chars(cats.drop_first(), s1, idx, c);
        if s1.contains(c) && cat_find(cats.drop_first(), c) < 0 {
            crate::text::lemma_replace_char_chars(s, cats[0].0, pick(cats[0].1, idx), c);
            if s.contains(c) && c != cats[0].0 {
                assert(cat_find(cats, c) < 0);
            } else {
                let k = choose|k: int|
                    0 <= k < pick(cats[0].1, idx).len() && pick(cats[0].1, idx)[k] == c;
                assert(cats[0].1.contains(c));
            }
        } else if exists|i: int|
            0 <= i < cats.drop_first().len() && cats.drop_first()[i].1.contains(c) {
            let i = choose|i: int|
                0 <= i < cats.drop_first().len() && cats.drop_first()[i].1.contains(c);
            assert(cats[i + 1].1.contains(c));
        }
    }
}

/// Law: when no category's content contains a category variable, the target
/// and replacement of every substitution in a correlated expansion are free
/// of category variables.
pub proof fn lemma_expansion_concrete(
    cats: Seq<(char, Seq<char>)>,
    sc: SoundChangeView,
    idx: int,
)
    requires
        forall|i: int, j: int|
            0 <= i < cats.len() && 0 <= j < cats[i].1.len() ==> cat_find(
                cats,
                #[trigger] cats[i].1[j],
            ) < 0,
    ensures
        forall|j: int|
            0 <= j < spec_sub_at(cats, sc, idx).tg.len() ==> cat_find(
                cats,
                #[trigger] spec_sub_at(cats, sc, idx).tg[j],
            ) < 0,
        forall|j: int|
            0 <= j < spec_sub_at(cats, sc, idx).repl.len() ==> cat_find(
                cats,
                #[trigger] spec_sub_at(cats, sc, idx).repl[j],
            ) < 0,
{
    let tg = spec_sub_at(cats, sc, idx).tg;
    let repl = spec_sub_at(cats, sc, idx).repl;
    assert forall|j: int| 0 <= j < tg.len() implies cat_find(cats, #[trigger] tg[j]) < 0 by {
        assert(tg.contains(tg[j]));
        lemma_subst_at_chars(cats, sc.tg, idx, tg[j]);
        if exists|i: int| 0 <= i < cats.len() && cats[i].1.contains(tg[j]) {
            let i = choose|i: int| 0 <= i < cats.len() && cats[i].1.contains(tg[j]);
            let k = choose|k: int| 0 <= k < cats[i].1.len() && cats[i].1[k] == tg[j];
            assert(cat_find(cats, cats[i].1[k]) < 0);
        }
    }
    assert forall|j: int| 0 <= j < repl.len() implies cat_find(cats, #[trigger] repl[j]) < 0 by {
        assert(repl.contains(repl[j]));
        lemma_subst_at_chars(cats, sc.repl, idx, repl[j]);
        if exists|i: int| 0 <= i < cats.len() && cats[i].1.contains(repl[j]) {
            let i = choose|i: int| 0 <= i < cats.len() && cats[i].1.contains(repl[j]);
            let k = choose|k: int| 0 <= k < cats[i].1.len() && cats[i].1[k] == repl[j];
            assert(cat_find(cats, cats[i].1[k]) < 0);
        }
    }
}

/// An error met at one rule decides the whole list compilation.
proof fn lemma_compile_all_err(
    cats: Seq<(char, Seq<char>)>,
    scs: Seq<SoundChangeView>,
    m: int,
    k: int,
)
    requires
        0 <= m <= k <= scs.len(),
        spec_compile_all(cats, scs.take(m)) is Err,
    ensures
        spec_compile_all(cats, scs.take(k)) == spec_compile_all(cats, scs.take(m)),
    decreases k,
{
    if k > m {
        lemma_compile_all_err(cats, scs, m, k - 1);
        assert(scs.take(k).drop_last() =~= scs.take(k - 1));
    }
}

} // verus!
