//! Localised text: a key with arguments or a marked literal, the resolver
//! hook that turns it into words, and the stand-in resolver's substitution.
//!
//! Text a widget displays is a key plus arguments, resolved through a
//! translation table, never a baked literal: the argument has to reach the
//! resolver intact for it to choose a plural form and a word order. A
//! missing translation shows the key, never a blank. The arguments include
//! real numbers, which a resolver renders; what the stand-in resolver then
//! does with the rendered text is here.

use vstd::prelude::*;
use crate::text::markup::{chars_and_offsets, string_of};

verus! {

/// A translation key, as authored in source.
#[derive(Clone, Copy, Debug, PartialEq, Eq, Hash, PartialOrd, Ord)]
pub struct TextKey(pub &'static str);

impl TextKey {
    /// The key as written.
    pub fn as_str(self) -> (s: &'static str)
        ensures
            s@ == self.0@,
    {
        self.0
    }
}

/// Text a widget displays: a key with named arguments, or a marked literal.
///
/// The arguments are whatever the resolver renders, numbers kept as numbers
/// so it can choose a plural form.
#[derive(Clone, Debug, PartialEq)]
pub enum LocalizedText<A> {
    /// Resolved through the translation table.
    Key {
        key: TextKey,
        /// `(name, value)` pairs, named so a translator can reorder them.
        args: Vec<(&'static str, A)>,
    },
    /// Deliberately untranslated: debug overlays, log lines, developer tools.
    Literal(String),
}

/// Something that turns a key and its arguments into text, or `None` when
/// the key is unknown to it.
pub trait Resolver<A> {
    /// Whether `r` is what this resolver answers for `key` with `args`. An
    /// implementation pins its answers down by defining it; left as given,
    /// it admits any answer.
    open spec fn answers(&self, key: TextKey, args: Seq<(&'static str, A)>, r: Option<String>) -> bool {
        true
    }

    fn resolve(&self, key: TextKey, args: &[(&'static str, A)]) -> (r: Option<String>)
        ensures
            self.answers(key, args@, r),
    ;
}

/// What a text shows, given what the resolver made of it: a literal shows
/// itself; a key shows its translation, or the key itself, never a blank.
pub open spec fn shown_text<A>(text: LocalizedText<A>, resolved: Option<String>) -> Seq<char> {
    match text {
        LocalizedText::Literal(t) => t@,
        LocalizedText::Key { key, .. } => match resolved {
            Some(t) => t@,
            None => key.0@,
        },
    }
}

impl<A> LocalizedText<A> {
    /// A key with no arguments.
    pub fn key(key: &'static str) -> (t: Self)
        ensures
            t matches LocalizedText::Key { key: k, args } && k.0 == key && args@.len() == 0,
    {
        LocalizedText::Key { key: TextKey(key), args: Vec::new() }
    }

    /// Add a named argument to a key; a literal takes none and is returned
    /// unchanged.
    pub fn arg(self, name: &'static str, value: A) -> (t: Self)
        ensures
            match self {
                LocalizedText::Key { key, args } => t matches LocalizedText::Key { key: k, args: a } && k == key
                    && a@ == args@.push((name, value)),
                LocalizedText::Literal(s) => t matches LocalizedText::Literal(u) && u@ == s@,
            },
    {
        match self {
            LocalizedText::Key { key, mut args } => {
                args.push((name, value));
                LocalizedText::Key { key, args }
            },
            LocalizedText::Literal(text) => LocalizedText::Literal(text),
        }
    }

    /// Deliberately untranslated text.
    pub fn literal(text: &str) -> (t: Self)
        ensures
            t matches LocalizedText::Literal(s) && s@ == text@,
    {
        let (chars, _) = chars_and_offsets(text);
        let len = chars.len();
        LocalizedText::Literal(string_of(&chars, 0, len))
    }

    /// Whether this is a marked literal rather than a key.
    pub fn is_literal(&self) -> (b: bool)
        ensures
            b == (self is Literal),
    {
        match self {
            LocalizedText::Literal(_) => true,
            LocalizedText::Key { .. } => false,
        }
    }

    /// What this text shows once `resolved` is what the resolver made of
    /// it: falling back to the key, not to empty, so a missing translation
    /// is findable on screen.
    pub fn shown(&self, resolved: Option<String>) -> (s: String)
        ensures
            s@ == shown_text(*self, resolved),
    {
        match self {
            LocalizedText::Literal(text) => text.clone(),
            LocalizedText::Key { key, .. } => match resolved {
                Some(text) => text,
                None => {
                    let (chars, _) = chars_and_offsets(key.0);
                    let len = chars.len();
                    string_of(&chars, 0, len)
                },
            },
        }
    }

    /// Resolve through `resolver`, falling back to the key itself. A
    /// literal never reaches the resolver; a key reaches it with its
    /// arguments as given, and shows the resolver's answer for them.
    pub fn resolve<R: Resolver<A>>(&self, resolver: &R) -> (s: String)
        ensures
            self matches LocalizedText::Literal(t) ==> s@ == t@,
            self matches LocalizedText::Key { key, args } ==> exists|r: Option<String>|
                resolver.answers(*key, args@, r) && s@ == shown_text(*self, r),
    {
        match self {
            LocalizedText::Literal(text) => {
                let s = text.clone();
                assert(s@ == shown_text(*self, None));
                s
            },
            LocalizedText::Key { key, args } => {
                let resolved = resolver.resolve(*key, args.as_slice());
                let ghost answer = resolved;
                let s = self.shown(resolved);
                assert(resolver.answers(*key, args@, answer) && s@ == shown_text(*self, answer));
                s
            },
        }
    }
}

/// The stand-in resolver until a translation table exists: it substitutes
/// `{name}` placeholders in the key and does nothing else.
#[derive(Debug)]
pub struct PassthroughResolver;

impl Default for PassthroughResolver {
    fn default() -> (r: Self)
        ensures
            r == PassthroughResolver,
    {
        PassthroughResolver
    }
}


/// The placeholder an argument called `name` fills: `{name}`.
pub open spec fn placeholder(name: Seq<char>) -> Seq<char> {
    seq!['{'] + name + seq!['}']
}

/// `s` with every occurrence of `pat` replaced by `rep`, scanning from the
/// left and resuming after each replacement, so occurrences never overlap.
pub open spec fn replaced(s: Seq<char>, pat: Seq<char>, rep: Seq<char>) -> Seq<char>
    decreases s.len(),
{
    if pat.len() == 0 || s.len() < pat.len() {
        s
    } else if s.take(pat.len() as int) == pat {
        rep + replaced(s.skip(pat.len() as int), pat, rep)
    } else {
        seq![s[0]] + replaced(s.skip(1), pat, rep)
    }
}

/// `key` with each argument's placeholder filled in turn by its rendered
/// value, first argument first.
pub open spec fn substituted(key: Seq<char>, args: Seq<(Seq<char>, Seq<char>)>) -> Seq<char>
    decreases args.len(),
{
    if args.len() == 0 {
        key
    } else {
        replaced(substituted(key, args.drop_last()), placeholder(args.last().0), args.last().1)
    }
}

/// Named, rendered arguments as plain text.
pub open spec fn rendered_view(args: Seq<(&'static str, String)>) -> Seq<(Seq<char>, Seq<char>)> {
    args.map_values(|a: (&'static str, String)| (a.0@, a.1@))
}

/// Whether `pat` occurs in `s` at `at`.
fn occurs_at(s: &Vec<char>, pat: &Vec<char>, at: usize) -> (r: bool)
    requires
        at <= s@.len(),
    ensures
        r == (at + pat@.len() <= s@.len() && s@.skip(at as int).take(pat@.len() as int) == pat@),
{
    if pat.len() > s.len() - at {
        return false;
    }
    let mut k: usize = 0;
    while k < pat.len()
        invariant
            at + pat@.len() <= s@.len(),
            s@.len() == s.len(),
            k <= pat@.len(),
            forall|j: int| 0 <= j < k ==> s@[at + j] == pat@[j],
        decreases pat@.len() - k,
    {
        if s[at + k] != pat[k] {
            assert(s@.skip(at as int).take(pat@.len() as int)[k as int] != pat@[k as int]);
            return false;
        }
        k = k + 1;
    }
    assert(s@.skip(at as int).take(pat@.len() as int) =~= pat@);
    true
}

/// The scan from `at` on, one step at a time, is the scan of the rest.
proof fn lemma_replaced_step(s: Seq<char>, pat: Seq<char>, rep: Seq<char>, at: int)
    requires
        pat.len() > 0,
        0 <= at < s.len(),
    ensures
        at + pat.len() <= s.len() && s.skip(at).take(pat.len() as int) == pat ==> replaced(s.skip(at), pat, rep)
            == rep + replaced(s.skip(at + pat.len()), pat, rep),
        !(at + pat.len() <= s.len() && s.skip(at).take(pat.len() as int) == pat) ==> replaced(s.skip(at), pat, rep)
            == seq![s[at]] + replaced(s.skip(at + 1), pat, rep),
{
    if at + pat.len() <= s.len() {
        assert(s.skip(at).skip(pat.len() as int) =~= s.skip(at + pat.len()));
    }
    assert(s.skip(at).skip(1) =~= s.skip(at + 1));
    if s.skip(at).len() < pat.len() {
        assert(s.skip(at) =~= seq![s[at]] + s.skip(at + 1));
        if s.skip(at + 1).len() >= pat.len() {
            assert(false);
        }
    }
}

/// `s` with every occurrence of a non-empty `pat` replaced by `rep`.
fn replace_all(s: &Vec<char>, pat: &Vec<char>, rep: &Vec<char>) -> (out: Vec<char>)
    requires
        pat@.len() > 0,
    ensures
        out@ == replaced(s@, pat@, rep@),
{
    let mut out: Vec<char> = Vec::new();
    let mut i: usize = 0;
    assert(s@.skip(0) =~= s@);
    while i < s.len()
        invariant
            pat@.len() > 0,
            i <= s@.len(),
            out@ + replaced(s@.skip(i as int), pat@, rep@) == replaced(s@, pat@, rep@),
        decreases s@.len() - i,
    {
        proof {
            lemma_replaced_step(s@, pat@, rep@, i as int);
        }
        if occurs_at(s, pat, i) {
            let ghost before = out@;
            let mut k: usize = 0;
            while k < rep.len()
                invariant
                    k <= rep@.len(),
                    out@ == before + rep@.take(k as int),
                decreases rep@.len() - k,
            {
                out.push(rep[k]);
                assert(rep@.take(k + 1) =~= rep@.take(k as int).push(rep@[k as int]));
                k = k + 1;
            }
            assert(rep@.take(rep@.len() as int) =~= rep@);
            assert(before + (rep@ + replaced(s@.skip(i + pat@.len()), pat@, rep@)) =~= out@ + replaced(
                s@.skip(i + pat@.len()),
                pat@,
                rep@,
            ));
            i = i + pat.len();
        } else {
            let ghost before = out@;
            out.push(s[i]);
            assert(before + (seq![s@[i as int]] + replaced(s@.skip(i + 1), pat@, rep@)) =~= out@ + replaced(
                s@.skip(i + 1),
                pat@,
                rep@,
            ));
            i = i + 1;
        }
    }
    assert(s@.skip(i as int) =~= Seq::<char>::empty());
    assert(out@ + Seq::<char>::empty() =~= out@);
    out
}

impl PassthroughResolver {
    /// Substitute each rendered argument into its `{name}` placeholders in
    /// the key, in order. With no arguments there is nothing to substitute,
    /// so the resolver declines with `None` and the key shows as it would
    /// for a missing translation.
    pub fn resolve_rendered(&self, key: TextKey, args: &Vec<(&'static str, String)>) -> (r: Option<String>)
        ensures
            r is None <==> args@.len() == 0,
            r matches Some(text) ==> text@ == substituted(key.0@, rendered_view(args@)),
    {
        if args.len() == 0 {
            return None;
        }
        let (mut out, _) = chars_and_offsets(key.0);
        let mut i: usize = 0;
        while i < args.len()
            invariant
                i <= args@.len(),
                out@ == substituted(key.0@, rendered_view(args@).take(i as int)),
            decreases args@.len() - i,
        {
            let (name, _) = chars_and_offsets(args[i].0);
            let (value, _) = chars_and_offsets(args[i].1.as_str());
            let mut pat: Vec<char> = Vec::new();
            pat.push('{');
            let mut k: usize = 0;
            while k < name.len()
                invariant
                    k <= name@.len(),
                    pat@ == seq!['{'] + name@.take(k as int),
                decreases name@.len() - k,
            {
                pat.push(name[k]);
                assert(name@.take(k + 1) =~= name@.take(k as int).push(name@[k as int]));
                k = k + 1;
            }
            pat.push('}');
            assert(name@.take(name@.len() as int) =~= name@);
            assert(pat@ =~= placeholder(name@));
            out = replace_all(&out, &pat, &value);
            proof {
                let v = rendered_view(args@);
                assert(v.take(i + 1).drop_last() =~= v.take(i as int));
                assert(v.take(i + 1).last() == v[i as int]);
            }
            i = i + 1;
        }
        assert(rendered_view(args@).take(args@.len() as int) =~= rendered_view(args@));
        let len = out.len();
        Some(string_of(&out, 0, len))
    }
}
/// Text without an opening brace holds no placeholder, so filling one
/// leaves it as it is.
proof fn lemma_nothing_to_fill(s: Seq<char>, name: Seq<char>, value: Seq<char>)
    requires
        !s.contains('{'),
    ensures
        replaced(s, placeholder(name), value) == s,
    decreases s.len(),
{
    let pat = placeholder(name);
    if s.len() >= pat.len() {
        if s.take(pat.len() as int) == pat {
            assert(pat[0] == '{');
            assert(s[0] == s.take(pat.len() as int)[0]);
            assert(false);
        }
        assert(!s.skip(1).contains('{')) by {
            if s.skip(1).contains('{') {
                let w = choose|w: int| 0 <= w < s.skip(1).len() && s.skip(1)[w] == '{';
                assert(s[w + 1] == '{');
            }
        }
        lemma_nothing_to_fill(s.skip(1), name, value);
        assert(seq![s[0]] + s.skip(1) =~= s);
    }
}

/// The stand-in resolver substitutes and no more: a key without
/// placeholders comes back exactly as written, whatever the arguments.
pub proof fn lemma_a_key_without_placeholders_is_kept(key: Seq<char>, args: Seq<(Seq<char>, Seq<char>)>)
    requires
        !key.contains('{'),
    ensures
        substituted(key, args) == key,
    decreases args.len(),
{
    if args.len() > 0 {
        lemma_a_key_without_placeholders_is_kept(key, args.drop_last());
        lemma_nothing_to_fill(key, args.last().0, args.last().1);
    }
}

} // verus!
