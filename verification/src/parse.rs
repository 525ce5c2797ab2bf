//! Reading control-file stanzas and dependency fields into structured
//! dependency data, and converting that data into the catalog's form.

use vstd::prelude::*;
use vstd::string::{StrSliceExecFns, StringExecFns};
use core::cmp::Ordering;
use crate::debian_version::{
    find_char, find_in_str, is_ws, trim_spec, trim_str, version_cmp, ws_char, DebianVersion,
};
use crate::debian_deps::{has_version, version_slot};
use crate::index;
use crate::index::{
    deps_view, entry_of, has_pkg, names_unique, pkg_index, versions_sorted, AltModel, HashedRange,
    Index, PackageEntryModel, VersionEntryModel,
};
use crate::range::{range_contains, VersionRange};
use crate::version_order::{lemma_compare_antisymmetric, lemma_compare_reflexive, lemma_compare_transitive};

verus! {

/// Why a stanza or a dependency string was refused.
#[derive(Debug, Clone, PartialEq, Eq)]
pub enum ParseError {
    /// A version constraint did not hold a relation and a version.
    InvalidVersionConstraint,
    /// The relation was none of `<<`, `<=`, `=`, `>=`, `>>`; the message
    /// names the text that was offered.
    UnknownVersionRelation(String),
    /// A `(` had no `)` after it.
    MissingClosingParen,
    /// A `[` had no `]` after it.
    MissingClosingBracket,
    /// A stanza line held no `:`.
    LineWithoutColon,
    /// The stanza had no `Package` field.
    MissingPackageField,
    /// The stanza had no `Version` field.
    MissingVersionField,
}

#[derive(Debug, Clone, Copy, PartialEq, Eq)]
pub enum VersionRelation {
    StrictlyEarlier,
    EarlierOrEqual,
    ExactlyEqual,
    LaterOrEqual,
    StrictlyLater,
}

/// The relation a constraint string names, if any.
pub open spec fn relation_spec(s: Seq<char>) -> Option<VersionRelation> {
    let t = trim_spec(s);
    if t.len() == 2 && t[0] == '<' && t[1] == '<' {
        Some(VersionRelation::StrictlyEarlier)
    } else if t.len() == 2 && t[0] == '<' && t[1] == '=' {
        Some(VersionRelation::EarlierOrEqual)
    } else if t.len() == 1 && t[0] == '=' {
        Some(VersionRelation::ExactlyEqual)
    } else if t.len() == 2 && t[0] == '>' && t[1] == '=' {
        Some(VersionRelation::LaterOrEqual)
    } else if t.len() == 2 && t[0] == '>' && t[1] == '>' {
        Some(VersionRelation::StrictlyLater)
    } else {
        None
    }
}

impl VersionRelation {
    /// Read a relation symbol, ignoring surrounding whitespace; anything
    /// else is refused with a message naming it.
    pub fn from_str(s: &str) -> (r: Result<VersionRelation, ParseError>)
        ensures
            match r {
                Ok(rel) => relation_spec(s@) == Some(rel),
                Err(e) => relation_spec(s@) == None::<VersionRelation> && (e
                    matches ParseError::UnknownVersionRelation(m) && m@
                    == "Unknown version relation: "@ + s@),
            },
    {
        let t = trim_str(s);
        let n = t.unicode_len();
        if n == 2 {
            let c0 = t.get_char(0);
            let c1 = t.get_char(1);
            if c0 == '<' && c1 == '<' {
                return Ok(VersionRelation::StrictlyEarlier);
            }
            if c0 == '<' && c1 == '=' {
                return Ok(VersionRelation::EarlierOrEqual);
            }
            if c0 == '>' && c1 == '=' {
                return Ok(VersionRelation::LaterOrEqual);
            }
            if c0 == '>' && c1 == '>' {
                return Ok(VersionRelation::StrictlyLater);
            }
            return Err(unknown_relation(s));
        }
        if n == 1 && t.get_char(0) == '=' {
            return Ok(VersionRelation::ExactlyEqual);
        }
        Err(unknown_relation(s))
    }
}

fn unknown_relation(s: &str) -> (e: ParseError)
    ensures
        e matches ParseError::UnknownVersionRelation(m) && m@ == "Unknown version relation: "@
            + s@,
{
    let mut m = String::from_str("Unknown version relation: ");
    m.append(s);
    ParseError::UnknownVersionRelation(m)
}

/// Length of the leading run of non-whitespace characters.
pub open spec fn word_len(s: Seq<char>) -> nat
    decreases s.len(),
{
    if s.len() == 0 || is_ws(s[0]) {
        0
    } else {
        1 + word_len(s.skip(1))
    }
}

/// The whitespace-separated words of a string, in order.
pub open spec fn words_of(s: Seq<char>) -> Seq<Seq<char>>
    decreases s.len(),
    via words_of_decreases
{
    if s.len() == 0 {
        Seq::empty()
    } else if is_ws(s[0]) {
        words_of(s.skip(1))
    } else {
        seq![s.take(word_len(s) as int)] + words_of(s.skip(word_len(s) as int))
    }
}

#[via_fn]
proof fn words_of_decreases(s: Seq<char>) {
    lemma_word_len_bounds(s);
}

proof fn lemma_word_len_bounds(s: Seq<char>)
    ensures
        word_len(s) <= s.len(),
        s.len() > 0 && !is_ws(s[0]) ==> word_len(s) >= 1,
    decreases s.len(),
{
    if s.len() > 0 && !is_ws(s[0]) {
        lemma_word_len_bounds(s.skip(1));
    }
}

pub open spec fn strs_view(v: Seq<String>) -> Seq<Seq<char>> {
    v.map_values(|x: String| x@)
}

proof fn lemma_word_len_exact(s: Seq<char>, m: nat)
    requires
        m <= s.len(),
        forall|k: int| 0 <= k < m ==> !is_ws(s[k]),
        m == s.len() || is_ws(s[m as int]),
    ensures
        word_len(s) == m,
    decreases s.len(),
{
    if s.len() == 0 || is_ws(s[0]) {
        assert(m == 0);
    } else {
        let t = s.skip(1);
        assert(forall|k: int| 0 <= k < m - 1 ==> t[k] == s[k + 1]);
        lemma_word_len_exact(t, (m - 1) as nat);
    }
}

/// Split a string into its whitespace-separated words.
pub fn split_words(s: &str) -> (r: Vec<String>)
    ensures
        strs_view(r@) == words_of(s@),
{
    let n = s.unicode_len();
    let mut out: Vec<String> = Vec::new();
    let mut i: usize = 0;
    proof {
        assert(s@.skip(0) =~= s@);
        assert(strs_view(out@) + words_of(s@) =~= words_of(s@));
    }
    while i < n
        invariant
            i <= n,
            n == s@.len(),
            strs_view(out@) + words_of(s@.skip(i as int)) =~= words_of(s@),
        decreases n - i,
    {
        let ghost tail = s@.skip(i as int);
        if ws_char(s.get_char(i)) {
            proof {
                assert(tail[0] == s@[i as int]);
                assert(tail.skip(1) =~= s@.skip(i as int + 1));
            }
            i = i + 1;
        } else {
            let mut j: usize = i + 1;
            while j < n && !ws_char(s.get_char(j))
                invariant
                    i < j <= n,
                    n == s@.len(),
                    forall|k: int| i <= k < j ==> !is_ws(s@[k]),
                decreases n - j,
            {
                j = j + 1;
            }
            proof {
                assert(forall|k: int| 0 <= k < j - i ==> tail[k] == s@[k + i]);
                lemma_word_len_exact(tail, (j - i) as nat);
                assert(tail.take(j - i) =~= s@.subrange(i as int, j as int));
                assert(tail.skip(j - i) =~= s@.skip(j as int));
            }
            let ghost before = strs_view(out@);
            out.push(String::from_str(s.substring_char(i, j)));
            proof {
                assert(strs_view(out@) =~= before + seq![s@.subrange(i as int, j as int)]);
                assert(strs_view(out@) + words_of(s@.skip(j as int)) =~= words_of(s@));
            }
            i = j;
        }
    }
    proof {
        assert(s@.skip(n as int) =~= Seq::<char>::empty());
        assert(strs_view(out@) =~= words_of(s@));
    }
    out
}

/// The words joined back with single spaces.
pub open spec fn join_sp(ws: Seq<Seq<char>>) -> Seq<char>
    decreases ws.len(),
{
    if ws.len() == 0 {
        Seq::empty()
    } else if ws.len() == 1 {
        ws[0]
    } else {
        join_sp(ws.drop_last()) + seq![' '] + ws.last()
    }
}

/// A version constraint: a relation and the version it compares against.
#[derive(Debug, Clone, PartialEq, Eq)]
pub struct VersionConstraint {
    pub relation: VersionRelation,
    pub version: String,
}

/// What a constraint string means: its relation and the version text,
/// which is everything after the relation joined with single spaces.
pub open spec fn vc_spec(s: Seq<char>) -> Option<(VersionRelation, Seq<char>)> {
    let ws = words_of(s);
    if ws.len() < 2 {
        None
    } else {
        match relation_spec(ws[0]) {
            None => None,
            Some(rel) => Some((rel, join_sp(ws.skip(1)))),
        }
    }
}

/// Parse a version constraint string (e.g. ">= 2.2.1") into a
/// VersionConstraint.
pub fn parse_version_constraint(s: &str) -> (r: Result<VersionConstraint, ParseError>)
    ensures
        match r {
            Ok(c) => vc_spec(s@) == Some((c.relation, c.version@)),
            Err(e) => vc_spec(s@) == None::<(VersionRelation, Seq<char>)> && (words_of(s@).len()
                < 2 ==> e == ParseError::InvalidVersionConstraint) && (words_of(s@).len() >= 2
                ==> (e matches ParseError::UnknownVersionRelation(m) && m@
                == "Unknown version relation: "@ + words_of(s@)[0])),
        },
{
    let words = split_words(s);
    if words.len() < 2 {
        return Err(ParseError::InvalidVersionConstraint);
    }
    let relation = match VersionRelation::from_str(words[0].as_str()) {
        Err(e) => {
            return Err(e);
        },
        Ok(rel) => rel,
    };
    let ghost wv = words_of(s@);
    let mut version = words[1].clone();
    proof {
        assert(wv.subrange(1, 2).drop_last() =~= wv.subrange(1, 1));
        assert(version@ == join_sp(wv.subrange(1, 2)));
    }
    let mut i: usize = 2;
    while i < words.len()
        invariant
            2 <= i <= words@.len(),
            wv == strs_view(words@),
            version@ == join_sp(wv.subrange(1, i as int)),
        decreases words.len() - i,
    {
        version.append(" ");
        version.append(words[i].as_str());
        proof {
            reveal_strlit(" ");
            assert(" "@ =~= seq![' ']);
            assert(wv.subrange(1, i as int + 1).drop_last() =~= wv.subrange(1, i as int));
            assert(wv.subrange(1, i as int + 1).last() == wv[i as int]);
        }
        i = i + 1;
    }
    proof {
        assert(wv.subrange(1, wv.len() as int) =~= wv.skip(1));
    }
    Ok(VersionConstraint { relation, version })
}

/// Does a version satisfy a relation against a constraint version?
pub open spec fn relation_admits(rel: VersionRelation, v: Seq<char>, w: Seq<char>) -> bool {
    match rel {
        VersionRelation::ExactlyEqual => version_cmp(v, w) == Ordering::Equal,
        VersionRelation::LaterOrEqual => version_cmp(v, w) != Ordering::Greater,
        VersionRelation::StrictlyLater => version_cmp(v, w) == Ordering::Less,
        VersionRelation::StrictlyEarlier => version_cmp(w, v) == Ordering::Less,
        VersionRelation::EarlierOrEqual => version_cmp(w, v) != Ordering::Greater,
    }
}

/// Does a version satisfy an optional constraint? No constraint admits
/// every version.
pub open spec fn vc_admits(c: Option<(VersionRelation, Seq<char>)>, w: Seq<char>) -> bool {
    match c {
        None => true,
        Some((rel, v)) => relation_admits(rel, v, w),
    }
}

/// One parsed alternative: target package, optional constraint, optional
/// architecture tags (accepted but not enforced).
#[derive(Debug, Clone, PartialEq, Eq)]
pub struct Alternative {
    pub package: String,
    pub version_constraint: Option<VersionConstraint>,
    pub arch: Option<Vec<String>>,
}

/// Spec model of a parsed alternative.
pub struct AltSpec {
    pub package: Seq<char>,
    pub constraint: Option<(VersionRelation, Seq<char>)>,
    pub arch: Option<Seq<Seq<char>>>,
}

impl View for Alternative {
    type V = AltSpec;

    open spec fn view(&self) -> AltSpec {
        AltSpec {
            package: self.package@,
            constraint: match self.version_constraint {
                Option::None => None,
                Option::Some(ref c) => Some((c.relation, c.version@)),
            },
            arch: match self.arch {
                Option::None => None,
                Option::Some(ref v) => Some(strs_view(v@)),
            },
        }
    }
}

/// The architecture tags of a piece, if any: the words between the first
/// `[` and the first `]`; a `[` without a `]` after it refuses the piece
/// (outer `None`); no tags or an empty bracket is inner `None`.
pub open spec fn arch_of(u: Seq<char>) -> Option<Option<Seq<Seq<char>>>> {
    let b = find_char(u, '[');
    if b < 0 {
        Some(None)
    } else {
        let e = find_char(u, ']');
        if e < b {
            None
        } else {
            let ws = words_of(u.subrange(b + 1, e));
            if ws.len() > 0 {
                Some(Some(ws))
            } else {
                Some(None)
            }
        }
    }
}

/// What an alternative string means, or `None` when it is refused: the
/// package is the trimmed text before the `(` (or the whole trimmed piece
/// when there is none), the constraint sits between `(` and `)`, and the
/// architecture tags follow in `[` `]`.
pub open spec fn alt_spec_of(s: Seq<char>) -> Option<AltSpec> {
    let t = trim_spec(s);
    let p = find_char(t, '(');
    if p < 0 {
        match arch_of(t) {
            None => None,
            Some(a) => Some(AltSpec { package: t, constraint: None, arch: a }),
        }
    } else {
        let q = find_char(t, ')');
        if q < p {
            None
        } else {
            let cs = trim_spec(t.subrange(p + 1, q));
            let after = trim_spec(t.skip(q + 1));
            match vc_spec(cs) {
                None => None,
                Some(vc) => match arch_of(after) {
                    None => None,
                    Some(a) => Some(
                        AltSpec { package: trim_spec(t.take(p)), constraint: Some(vc), arch: a },
                    ),
                },
            }
        }
    }
}

/// Read the architecture tags of a piece.
fn parse_arch(u: &str) -> (r: Result<Option<Vec<String>>, ParseError>)
    ensures
        match r {
            Ok(a) => arch_of(u@) == Some(
                match a {
                    Option::None => None::<Seq<Seq<char>>>,
                    Option::Some(ref v) => Some(strs_view(v@)),
                },
            ),
            Err(e) => arch_of(u@) == None::<Option<Seq<Seq<char>>>> && e
                == ParseError::MissingClosingBracket,
        },
{
    let n = u.unicode_len();
    match find_in_str(u, '[') {
        None => Ok(None),
        Some(b) => {
            match find_in_str(u, ']') {
                None => Err(ParseError::MissingClosingBracket),
                Some(e) => {
                    if e < b {
                        Err(ParseError::MissingClosingBracket)
                    } else {
                        proof {
                            assert(u@[b as int] == '[' && u@[e as int] == ']');
                            assert(b != e);
                        }
                        let inner = u.substring_char(b + 1, e);
                        let ws = split_words(inner);
                        proof {
                            assert(inner@ =~= u@.subrange(b as int + 1, e as int));
                        }
                        if ws.len() > 0 {
                            Ok(Some(ws))
                        } else {
                            Ok(None)
                        }
                    }
                },
            }
        },
    }
}

/// Parse a single dependency alternative, e.g. "libc6 (>= 2.2.1)",
/// "libqt5core5a (>= 5.7.0) [amd64 i386]" or "default-mta".
pub fn parse_alternative(s: &str) -> (r: Result<Alternative, ParseError>)
    ensures
        match r {
            Ok(a) => alt_spec_of(s@) == Some(a@),
            Err(_) => alt_spec_of(s@) == None::<AltSpec>,
        },
{
    let t = trim_str(s);
    let n = t.unicode_len();
    match find_in_str(t, '(') {
        None => {
            match parse_arch(t) {
                Err(e) => Err(e),
                Ok(arch) => Ok(
                    Alternative {
                        package: String::from_str(t),
                        version_constraint: None,
                        arch,
                    },
                ),
            }
        },
        Some(p) => {
            let q = match find_in_str(t, ')') {
                None => {
                    return Err(ParseError::MissingClosingParen);
                },
                Some(q) => q,
            };
            if q < p {
                return Err(ParseError::MissingClosingParen);
            }
            proof {
                assert(t@[p as int] == '(' && t@[q as int] == ')');
                assert(p != q);
            }
            let cs = trim_str(t.substring_char(p + 1, q));
            proof {
                assert(t@.subrange(p as int + 1, q as int) =~= t@.subrange(p as int + 1, q as int));
            }
            let vc = match parse_version_constraint(cs) {
                Err(e) => {
                    return Err(e);
                },
                Ok(vc) => vc,
            };
            let after = trim_str(t.substring_char(q + 1, n));
            proof {
                assert(t@.subrange(q as int + 1, n as int) =~= t@.skip(q as int + 1));
            }
            match parse_arch(after) {
                Err(e) => Err(e),
                Ok(arch) => {
                    let pkg = trim_str(t.substring_char(0, p));
                    proof {
                        assert(t@.subrange(0, p as int) =~= t@.take(p as int));
                    }
                    Ok(
                        Alternative {
                            package: String::from_str(pkg),
                            version_constraint: Some(vc),
                            arch,
                        },
                    )
                },
            }
        },
    }
}

/// The pieces of a string split at every occurrence of `c`.
pub open spec fn split_at_char(s: Seq<char>, c: char) -> Seq<Seq<char>>
    decreases s.len(),
    via split_at_char_decreases
{
    let p = find_char(s, c);
    if p < 0 {
        seq![s]
    } else {
        seq![s.take(p)] + split_at_char(s.skip(p + 1), c)
    }
}

#[via_fn]
proof fn split_at_char_decreases(s: Seq<char>, c: char) {
    lemma_find_char_bounds(s, c);
}

proof fn lemma_find_char_bounds(s: Seq<char>, c: char)
    ensures
        find_char(s, c) < s.len(),
        find_char(s, c) >= -1,
    decreases s.len(),
{
    if s.len() > 0 && s[0] != c {
        lemma_find_char_bounds(s.skip(1), c);
    }
}

/// Split a string at every occurrence of `c`.
fn split_string(s: &str, c: char) -> (r: Vec<String>)
    ensures
        strs_view(r@) == split_at_char(s@, c),
{
    let mut out: Vec<String> = Vec::new();
    let n = s.unicode_len();
    let mut i: usize = 0;
    let ghost target = split_at_char(s@, c);
    proof {
        assert(s@.skip(0) =~= s@);
    }
    loop
        invariant
            i <= n,
            n == s@.len(),
            target == split_at_char(s@, c),
            strs_view(out@) + split_at_char(s@.skip(i as int), c) =~= target,
        decreases n - i,
    {
        let ghost tail = s@.skip(i as int);
        let mut j: usize = i;
        while j < n && s.get_char(j) != c
            invariant
                i <= j <= n,
                n == s@.len(),
                forall|k: int| i <= k < j ==> s@[k] != c,
            decreases n - j,
        {
            j = j + 1;
        }
        let piece = String::from_str(s.substring_char(i, j));
        let ghost before = strs_view(out@);
        out.push(piece);
        proof {
            assert(forall|k: int| 0 <= k < j - i ==> tail[k] == s@[k + i]);
            if j == n {
                crate::debian_version::lemma_find_char(tail, c, tail.len() as nat);
                assert(tail.take(tail.len() as int) =~= tail);
                assert(strs_view(out@) =~= before + seq![tail]);
                assert(tail =~= s@.subrange(i as int, j as int));
            } else {
                crate::debian_version::lemma_find_char(tail, c, (j - i) as nat);
                assert(tail.take(j - i) =~= s@.subrange(i as int, j as int));
                assert(tail.skip(j - i + 1) =~= s@.skip(j as int + 1));
                assert(strs_view(out@) =~= before + seq![s@.subrange(i as int, j as int)]);
            }
        }
        if j == n {
            proof {
                assert(strs_view(out@) =~= target);
            }
            return out;
        }
        i = j + 1;
    }
}

/// A dependency item: a list of alternatives separated by `|`.
#[derive(Debug, Clone, PartialEq, Eq)]
pub struct Dependency {
    pub alternatives: Vec<Alternative>,
}

pub open spec fn palts_view(v: Seq<Alternative>) -> Seq<AltSpec> {
    v.map_values(|a: Alternative| a@)
}

impl View for Dependency {
    type V = Seq<AltSpec>;

    open spec fn view(&self) -> Seq<AltSpec> {
        palts_view(self.alternatives@)
    }
}

pub open spec fn pdeps_view(v: Seq<Dependency>) -> Seq<Seq<AltSpec>> {
    v.map_values(|d: Dependency| d@)
}

/// The alternatives of the pieces, or `None` when any piece is refused.
pub open spec fn alts_of_pieces(ps: Seq<Seq<char>>) -> Option<Seq<AltSpec>>
    decreases ps.len(),
{
    if ps.len() == 0 {
        Some(Seq::empty())
    } else {
        match (alt_spec_of(ps[0]), alts_of_pieces(ps.skip(1))) {
            (Some(a), Some(rest)) => Some(seq![a] + rest),
            _ => None,
        }
    }
}

proof fn lemma_alts_of_pieces_ok(ps: Seq<Seq<char>>, xs: Seq<AltSpec>)
    requires
        ps.len() == xs.len(),
        forall|j: int| 0 <= j < ps.len() ==> alt_spec_of(#[trigger] ps[j]) == Some(xs[j]),
    ensures
        alts_of_pieces(ps) == Some(xs),
    decreases ps.len(),
{
    if ps.len() > 0 {
        let pt = ps.skip(1);
        let xt = xs.skip(1);
        assert(forall|j: int| 0 <= j < pt.len() ==> pt[j] == ps[j + 1] && xt[j] == xs[j + 1]);
        lemma_alts_of_pieces_ok(pt, xt);
        assert(seq![xs[0]] + xt =~= xs);
    }
}

proof fn lemma_alts_of_pieces_err(ps: Seq<Seq<char>>, j: int)
    requires
        0 <= j < ps.len(),
        alt_spec_of(ps[j]) == None::<AltSpec>,
    ensures
        alts_of_pieces(ps) == None::<Seq<AltSpec>>,
    decreases ps.len(),
{
    if j > 0 {
        let pt = ps.skip(1);
        assert(pt[j - 1] == ps[j]);
        lemma_alts_of_pieces_err(pt, j - 1);
    }
}

/// Parse a dependency item, which may hold alternatives separated by `|`.
pub fn parse_dependency_item(s: &str) -> (r: Result<Dependency, ParseError>)
    ensures
        match r {
            Ok(d) => alts_of_pieces(split_at_char(s@, '|')) == Some(d@),
            Err(_) => alts_of_pieces(split_at_char(s@, '|')) == None::<Seq<AltSpec>>,
        },
{
    let pieces = split_string(s, '|');
    let ghost pv = split_at_char(s@, '|');
    let mut alternatives: Vec<Alternative> = Vec::new();
    let mut k: usize = 0;
    while k < pieces.len()
        invariant
            k <= pieces@.len(),
            pv == split_at_char(s@, '|'),
            pv == strs_view(pieces@),
            alternatives@.len() == k,
            forall|j: int|
                0 <= j < k ==> alt_spec_of(#[trigger] pv[j]) == Some(alternatives@[j]@),
        decreases pieces.len() - k,
    {
        match parse_alternative(pieces[k].as_str()) {
            Err(e) => {
                proof {
                    assert(pv[k as int] == pieces@[k as int]@);
                    lemma_alts_of_pieces_err(pv, k as int);
                }
                return Err(e);
            },
            Ok(a) => {
                alternatives.push(a);
            },
        }
        k = k + 1;
    }
    proof {
        lemma_alts_of_pieces_ok(pv, palts_view(alternatives@));
    }
    Ok(Dependency { alternatives })
}

/// The dependencies of a comma-split field: empty pieces and pieces that
/// fail to parse contribute nothing.
pub open spec fn field_spec(ps: Seq<Seq<char>>) -> Seq<Seq<AltSpec>>
    decreases ps.len(),
{
    if ps.len() == 0 {
        Seq::empty()
    } else {
        let rest = field_spec(ps.skip(1));
        if trim_spec(ps[0]).len() == 0 {
            rest
        } else {
            match alts_of_pieces(split_at_char(trim_spec(ps[0]), '|')) {
                None => rest,
                Some(alts) => seq![alts] + rest,
            }
        }
    }
}

/// Parse an entire Depends field: a comma-separated list of dependency
/// items; empty and unreadable items are dropped.
pub fn parse_dependency_field(s: &str) -> (r: Vec<Dependency>)
    ensures
        pdeps_view(r@) == field_spec(split_at_char(s@, ',')),
{
    let pieces = split_string(s, ',');
    let ghost pv = split_at_char(s@, ',');
    let mut out: Vec<Dependency> = Vec::new();
    let mut k: usize = 0;
    proof {
        assert(pv.skip(0) =~= pv);
    }
    while k < pieces.len()
        invariant
            k <= pieces@.len(),
            pv == split_at_char(s@, ','),
            pv == strs_view(pieces@),
            pdeps_view(out@) + field_spec(pv.skip(k as int)) =~= field_spec(pv),
        decreases pieces.len() - k,
    {
        let ghost tail = pv.skip(k as int);
        proof {
            assert(tail[0] == pv[k as int]);
            assert(tail.skip(1) =~= pv.skip(k as int + 1));
        }
        let trimmed = trim_str(pieces[k].as_str());
        let ghost before = pdeps_view(out@);
        if trimmed.unicode_len() > 0 {
            match parse_dependency_item(trimmed) {
                Ok(dep) => {
                    out.push(dep);
                    proof {
                        assert(pdeps_view(out@) =~= before + seq![out@.last()@]);
                    }
                },
                Err(_) => {},
            }
        }
        k = k + 1;
    }
    proof {
        assert(pv.skip(pv.len() as int) =~= Seq::<Seq<char>>::empty());
        assert(pdeps_view(out@) =~= field_spec(pv));
    }
    out
}

/// One control-file stanza: a package, its version, and its declared
/// `Depends` and `Provides` fields.
#[derive(Debug, Clone, PartialEq, Eq)]
pub struct DebianPackage {
    pub package: String,
    pub version: String,
    pub depends: Vec<Dependency>,
    pub provides: Vec<Dependency>,
}

pub struct DebianPackageSpec {
    pub package: Seq<char>,
    pub version: Seq<char>,
    pub depends: Seq<Seq<AltSpec>>,
    pub provides: Seq<Seq<AltSpec>>,
}

impl View for DebianPackage {
    type V = DebianPackageSpec;

    open spec fn view(&self) -> DebianPackageSpec {
        DebianPackageSpec {
            package: self.package@,
            version: self.version@,
            depends: pdeps_view(self.depends@),
            provides: pdeps_view(self.provides@),
        }
    }
}

/// A line without its one trailing carriage return, as `str::lines` does.
pub open spec fn strip_cr(l: Seq<char>) -> Seq<char> {
    if l.len() > 0 && l.last() == '\r' {
        l.drop_last()
    } else {
        l
    }
}

/// The lines of a stanza, as `str::lines` yields them.
pub open spec fn lines_of(s: Seq<char>) -> Seq<Seq<char>> {
    let ps = split_at_char(s, '\n');
    let ps2 = if ps.len() > 0 && ps.last().len() == 0 {
        ps.drop_last()
    } else {
        ps
    };
    ps2.map_values(|l: Seq<char>| strip_cr(l))
}

pub open spec fn flush_field(cur: Option<(Seq<char>, Seq<char>)>) -> Seq<(Seq<char>, Seq<char>)> {
    match cur {
        None => Seq::empty(),
        Some((k, v)) => seq![(k, trim_spec(v))],
    }
}

/// The fields of a stanza read line by line: blank lines are skipped, a
/// line starting with a space or tab continues the pending field, any
/// other line must hold a colon and starts a new field. `None` when a
/// line holds no colon.
pub open spec fn stanza_fields(
    lines: Seq<Seq<char>>,
    i: int,
    cur: Option<(Seq<char>, Seq<char>)>,
    acc: Seq<(Seq<char>, Seq<char>)>,
) -> Option<Seq<(Seq<char>, Seq<char>)>>
    decreases lines.len() - i,
{
    if i < 0 || i >= lines.len() {
        Some(acc + flush_field(cur))
    } else {
        let l = lines[i];
        if trim_spec(l).len() == 0 {
            stanza_fields(lines, i + 1, cur, acc)
        } else if l[0] == ' ' || l[0] == '\t' {
            match cur {
                None => stanza_fields(lines, i + 1, None, acc),
                Some((k, v)) => stanza_fields(
                    lines,
                    i + 1,
                    Some((k, v + seq![' '] + trim_spec(l))),
                    acc,
                ),
            }
        } else {
            let p = find_char(l, ':');
            if p < 0 {
                None
            } else {
                stanza_fields(
                    lines,
                    i + 1,
                    Some((trim_spec(l.take(p)), trim_spec(l.skip(p + 1)))),
                    acc + flush_field(cur),
                )
            }
        }
    }
}

/// Case-insensitive equality against an all-lowercase key.
pub open spec fn ci_eq(k: Seq<char>, target: Seq<char>) -> bool {
    k.len() == target.len() && (forall|i: int|
        0 <= i < k.len() ==> ci_char_eq(#[trigger] k[i], target[i]))
}

pub open spec fn ci_char_eq(a: char, b: char) -> bool {
    a == b || (65 <= a as u32 && a as u32 <= 90 && a as u32 + 32 == b as u32)
}

/// The value of the last field whose key, lowercased, equals `target`.
pub open spec fn last_field(
    fs: Seq<(Seq<char>, Seq<char>)>,
    target: Seq<char>,
) -> Option<Seq<char>>
    decreases fs.len(),
{
    if fs.len() == 0 {
        None
    } else if ci_eq(fs.last().0, target) {
        Some(fs.last().1)
    } else {
        last_field(fs.drop_last(), target)
    }
}

pub open spec fn pkg_key() -> Seq<char> {
    seq!['p', 'a', 'c', 'k', 'a', 'g', 'e']
}

pub open spec fn ver_key() -> Seq<char> {
    seq!['v', 'e', 'r', 's', 'i', 'o', 'n']
}

pub open spec fn dep_key() -> Seq<char> {
    seq!['d', 'e', 'p', 'e', 'n', 'd', 's']
}

pub open spec fn prov_key() -> Seq<char> {
    seq!['p', 'r', 'o', 'v', 'i', 'd', 'e', 's']
}

pub open spec fn field_or_empty(fs: Seq<(Seq<char>, Seq<char>)>, key: Seq<char>) -> Seq<char> {
    match last_field(fs, key) {
        None => Seq::empty(),
        Some(v) => v,
    }
}

/// What a stanza means, or `None` when a line holds no colon or the
/// `Package` or `Version` field is missing.
pub open spec fn stanza_to_pkg(s: Seq<char>) -> Option<DebianPackageSpec> {
    match stanza_fields(lines_of(s), 0, None, Seq::empty()) {
        None => None,
        Some(fs) => match (last_field(fs, pkg_key()), last_field(fs, ver_key())) {
            (Some(p), Some(v)) => Some(
                DebianPackageSpec {
                    package: p,
                    version: v,
                    depends: field_spec(split_at_char(field_or_empty(fs, dep_key()), ',')),
                    provides: field_spec(split_at_char(field_or_empty(fs, prov_key()), ',')),
                },
            ),
            _ => None,
        },
    }
}

/// Case-insensitive match of a key against an all-lowercase name.
fn key_matches(k: &str, target: &str) -> (r: bool)
    ensures
        r == ci_eq(k@, target@),
{
    let n = k.unicode_len();
    if n != target.unicode_len() {
        return false;
    }
    let mut i: usize = 0;
    while i < n
        invariant
            i <= n,
            n == k@.len() && n == target@.len(),
            forall|j: int| 0 <= j < i ==> ci_char_eq(#[trigger] k@[j], target@[j]),
        decreases n - i,
    {
        let a = k.get_char(i);
        let b = target.get_char(i);
        let au = a as u32;
        let bu = b as u32;
        if !(a == b || (65 <= au && au <= 90 && au + 32 == bu)) {
            return false;
        }
        i = i + 1;
    }
    true
}

fn lookup_ci(fields: &Vec<(String, String)>, target: &str) -> (r: Option<String>)
    ensures
        match r {
            Some(v) => last_field(fields_view(fields@), target@) == Some(v@),
            None => last_field(fields_view(fields@), target@) == None::<Seq<char>>,
        },
{
    let ghost fv = fields_view(fields@);
    let mut idx: usize = fields.len();
    proof {
        assert(fv.take(fv.len() as int) =~= fv);
    }
    while idx > 0
        invariant
            idx <= fields@.len(),
            fv == fields_view(fields@),
            last_field(fv, target@) == last_field(fv.take(idx as int), target@),
        decreases idx,
    {
        proof {
            assert(fv.take(idx as int).last() == fv[idx - 1]);
            assert(fv.take(idx as int).drop_last() =~= fv.take(idx as int - 1));
        }
        if key_matches(fields[idx - 1].0.as_str(), target) {
            return Some(fields[idx - 1].1.clone());
        }
        idx = idx - 1;
    }
    proof {
        assert(fv.take(0) =~= Seq::<(Seq<char>, Seq<char>)>::empty());
    }
    None
}

pub open spec fn fields_view(v: Seq<(String, String)>) -> Seq<(Seq<char>, Seq<char>)> {
    v.map_values(|f: (String, String)| (f.0@, f.1@))
}

/// Parse a single control file stanza into a DebianPackage. Each field is
/// `Field: value` on one line, with continuation lines indented.
pub fn parse_debian_package(stanza: &str) -> (r: Result<DebianPackage, ParseError>)
    ensures
        match r {
            Ok(dp) => stanza_to_pkg(stanza@) == Some(dp@),
            Err(_) => stanza_to_pkg(stanza@) == None::<DebianPackageSpec>,
        },
{
    let raw = split_string(stanza, '\n');
    let mut lines: Vec<String> = Vec::new();
    let ghost lv = lines_of(stanza@);
    let keep = if raw.len() > 0 && raw[raw.len() - 1].as_str().unicode_len() == 0 {
        raw.len() - 1
    } else {
        raw.len()
    };
    let mut t: usize = 0;
    while t < keep
        invariant
            t <= keep,
            keep <= raw@.len(),
            lines@.len() == t,
            forall|j: int| 0 <= j < t ==> lines@[j]@ == strip_cr(raw@[j]@),
        decreases keep - t,
    {
        let l = &raw[t];
        let n = l.as_str().unicode_len();
        if n > 0 && l.as_str().get_char(n - 1) == '\r' {
            let stripped = String::from_str(l.as_str().substring_char(0, n - 1));
            proof {
                assert(stripped@ =~= strip_cr(raw@[t as int]@));
            }
            lines.push(stripped);
        } else {
            lines.push(l.clone());
        }
        t = t + 1;
    }
    proof {
        let ps = split_at_char(stanza@, '\n');
        assert(ps == strs_view(raw@));
        if raw@.len() > 0 && raw@[raw@.len() - 1]@.len() == 0 {
            assert(ps.drop_last() =~= strs_view(raw@).drop_last());
        }
        assert(strs_view(lines@) =~= lv);
    }
    let mut fields: Vec<(String, String)> = Vec::new();
    let mut cur: Option<(String, String)> = None;
    let mut i: usize = 0;
    let ghost st0 = stanza_fields(lv, 0, None, Seq::empty());
    proof {
        assert(fields_view(fields@) =~= Seq::<(Seq<char>, Seq<char>)>::empty());
    }
    while i < lines.len()
        invariant
            i <= lines@.len(),
            lv == lines_of(stanza@),
            lv == strs_view(lines@),
            st0 == stanza_fields(lv, 0, None, Seq::empty()),
            st0 == stanza_fields(lv, i as int, cur_view(cur), fields_view(fields@)),
        decreases lines.len() - i,
    {
        let l = lines[i].as_str();
        proof {
            assert(lv[i as int] == lines@[i as int]@);
        }
        if trim_str(l).unicode_len() == 0 {
            i = i + 1;
            continue ;
        }
        let c0 = l.get_char(0);
        if c0 == ' ' || c0 == '\t' {
            let trimmed = trim_str(l);
            cur = match cur {
                None => None,
                Some((k, mut v)) => {
                    v.append(" ");
                    v.append(trimmed);
                    proof {
                        reveal_strlit(" ");
                        assert(" "@ =~= seq![' ']);
                    }
                    Some((k, v))
                },
            };
            i = i + 1;
            continue ;
        }
        match find_in_str(l, ':') {
            None => {
                return Err(ParseError::LineWithoutColon);
            },
            Some(p) => {
                let ln = l.unicode_len();
                let key = String::from_str(trim_str(l.substring_char(0, p)));
                let val = String::from_str(trim_str(l.substring_char(p + 1, ln)));
                proof {
                    assert(l@.subrange(0, p as int) =~= l@.take(p as int));
                    assert(l@.subrange(p as int + 1, l@.len() as int) =~= l@.skip(p as int + 1));
                }
                let ghost fv0 = fields_view(fields@);
                match cur {
                    None => {},
                    Some((k, v)) => {
                        fields.push((k, String::from_str(trim_str(v.as_str()))));
                    },
                }
                proof {
                    assert(fields_view(fields@) =~= fv0 + flush_field(cur_view(cur)));
                }
                cur = Some((key, val));
                i = i + 1;
            },
        }
    }
    let ghost fv0 = fields_view(fields@);
    match cur {
        None => {},
        Some((k, v)) => {
            fields.push((k, String::from_str(trim_str(v.as_str()))));
        },
    }
    proof {
        assert(fields_view(fields@) =~= fv0 + flush_field(cur_view(cur)));
        assert(st0 == Some(fields_view(fields@)));
    }
    let package = match lookup_ci(&fields, "package") {
        None => {
            proof {
                reveal_strlit("package");
                assert("package"@ =~= pkg_key());
            }
            return Err(ParseError::MissingPackageField);
        },
        Some(p) => p,
    };
    let version = match lookup_ci(&fields, "version") {
        None => {
            proof {
                reveal_strlit("version");
                assert("version"@ =~= ver_key());
            }
            return Err(ParseError::MissingVersionField);
        },
        Some(v) => v,
    };
    let dep_src = match lookup_ci(&fields, "depends") {
        None => String::new(),
        Some(v) => v,
    };
    let prov_src = match lookup_ci(&fields, "provides") {
        None => String::new(),
        Some(v) => v,
    };
    let depends = parse_dependency_field(dep_src.as_str());
    let provides = parse_dependency_field(prov_src.as_str());
    proof {
        reveal_strlit("package");
        reveal_strlit("version");
        reveal_strlit("depends");
        reveal_strlit("provides");
        assert("package"@ =~= pkg_key());
        assert("version"@ =~= ver_key());
        assert("depends"@ =~= dep_key());
        assert("provides"@ =~= prov_key());
    }
    Ok(DebianPackage { package, version, depends, provides })
}

pub open spec fn cur_view(cur: Option<(String, String)>) -> Option<(Seq<char>, Seq<char>)> {
    match cur {
        None => None,
        Some((k, v)) => Some((k@, v@)),
    }
}

/// The stanzas of a control file: the pieces between blank lines.
pub open spec fn split_stanzas(s: Seq<char>) -> Seq<Seq<char>>
    decreases s.len(),
    via split_stanzas_decreases
{
    let p = find_double_nl(s);
    if p < 0 {
        seq![s]
    } else {
        seq![s.take(p)] + split_stanzas(s.skip(p + 2))
    }
}

/// Index of the first adjacent pair of newlines, or -1.
pub open spec fn find_double_nl(s: Seq<char>) -> int
    decreases s.len(),
{
    if s.len() < 2 {
        -1
    } else if s[0] == '\n' && s[1] == '\n' {
        0
    } else {
        let r = find_double_nl(s.skip(1));
        if r < 0 {
            -1
        } else {
            r + 1
        }
    }
}

#[via_fn]
proof fn split_stanzas_decreases(s: Seq<char>) {
    lemma_find_double_nl_bounds(s);
}

proof fn lemma_find_double_nl_bounds(s: Seq<char>)
    ensures
        find_double_nl(s) < s.len() - 1 || find_double_nl(s) == -1,
        find_double_nl(s) >= -1,
    decreases s.len(),
{
    if s.len() >= 2 && !(s[0] == '\n' && s[1] == '\n') {
        lemma_find_double_nl_bounds(s.skip(1));
    }
}

proof fn lemma_find_double_nl_exact(s: Seq<char>, i: nat)
    requires
        i + 1 <= s.len(),
        forall|k: int| 0 <= k < i ==> !(#[trigger] s[k] == '\n' && s[k + 1] == '\n'),
        i + 1 == s.len() || (s[i as int] == '\n' && s[i as int + 1] == '\n'),
    ensures
        find_double_nl(s) == if i + 1 == s.len() {
            -1int
        } else {
            i as int
        },
    decreases s.len(),
{
    if s.len() < 2 {
    } else if s[0] == '\n' && s[1] == '\n' {
        assert(i == 0);
    } else {
        assert(i >= 1);
        let t = s.skip(1);
        assert(forall|k: int| 0 <= k < i - 1 ==> #[trigger] t[k] == s[k + 1] && t[k + 1] == s[k + 2]);
        assert(t[i - 1] == s[i as int]);
        if i + 1 < s.len() {
            assert(t[i as int] == s[i as int + 1]);
        }
        lemma_find_double_nl_exact(t, (i - 1) as nat);
    }
}

/// What a control file means, stanza by stanza: blank stanzas are
/// skipped; `None` when any remaining stanza is refused.
pub open spec fn control_spec(ps: Seq<Seq<char>>) -> Option<Seq<DebianPackageSpec>>
    decreases ps.len(),
{
    if ps.len() == 0 {
        Some(Seq::empty())
    } else if trim_spec(ps[0]).len() == 0 {
        control_spec(ps.skip(1))
    } else {
        match (stanza_to_pkg(ps[0]), control_spec(ps.skip(1))) {
            (Some(dp), Some(rest)) => Some(seq![dp] + rest),
            _ => None,
        }
    }
}

pub open spec fn dps_view(v: Seq<DebianPackage>) -> Seq<DebianPackageSpec> {
    v.map_values(|d: DebianPackage| d@)
}

/// Parse the text of an entire control file, which may hold several
/// stanzas separated by blank lines.
#[verifier::rlimit(100)]
pub fn parse_debian_control(content: &str) -> (r: Result<Vec<DebianPackage>, ParseError>)
    ensures
        match r {
            Ok(v) => control_spec(split_stanzas(content@)) == Some(dps_view(v@)),
            Err(_) => control_spec(split_stanzas(content@)) == None::<Seq<DebianPackageSpec>>,
        },
{
    let n = content.unicode_len();
    let mut out: Vec<DebianPackage> = Vec::new();
    let mut i: usize = 0;
    let ghost whole = split_stanzas(content@);
    proof {
        assert(content@.skip(0) =~= content@);
    }
    loop
        invariant
            i <= n,
            n == content@.len(),
            whole == split_stanzas(content@),
            control_spec(split_stanzas(content@.skip(i as int))) matches Some(rest) ==>
                control_spec(whole) == Some(dps_view(out@) + rest),
            control_spec(split_stanzas(content@.skip(i as int))) == None::<
                Seq<DebianPackageSpec>,
            > ==> control_spec(whole) == None::<Seq<DebianPackageSpec>>,
        decreases n - i,
    {
        let ghost tail = content@.skip(i as int);
        let ghost before = dps_view(out@);
        // find the next blank-line separator
        let mut j: usize = i;
        while n - j > 1 && !(content.get_char(j) == '\n' && content.get_char(j + 1) == '\n')
            invariant
                i <= j,
                j <= n,
                n == content@.len(),
                forall|k: int|
                    i <= k < j ==> !(#[trigger] content@[k] == '\n' && content@[k + 1] == '\n'),
            decreases n - j,
        {
            j = j + 1;
        }
        let sep = n - j > 1;
        let end = if sep {
            j
        } else {
            n
        };
        let piece = content.substring_char(i, end);
        let ghost st = split_stanzas(tail);
        proof {
            assert(forall|k: int|
                0 <= k < tail.len() - 1 ==> #[trigger] tail[k] == content@[k + i] && tail[k + 1]
                    == content@[k + i + 1]);
            if sep {
                lemma_find_double_nl_exact(tail, (j - i) as nat);
                assert(tail.take(j - i) =~= content@.subrange(i as int, j as int));
                assert(tail.skip(j - i + 2) =~= content@.skip(j as int + 2));
                assert(st == seq![piece@] + split_stanzas(content@.skip(j as int + 2)));
            } else {
                if tail.len() >= 2 {
                    lemma_find_double_nl_exact(tail, (tail.len() - 1) as nat);
                } else {
                    lemma_find_double_nl_bounds(tail);
                }
                assert(find_double_nl(tail) == -1);
                assert(tail =~= content@.subrange(i as int, n as int));
                assert(st =~= seq![piece@]);
                assert(st.skip(1) =~= Seq::<Seq<char>>::empty());
            }
            assert(st[0] == piece@);
        }
        if trim_str(piece).unicode_len() > 0 {
            match parse_debian_package(piece) {
                Err(e) => {
                    proof {
                        assert(control_spec(st) == None::<Seq<DebianPackageSpec>>);
                    }
                    return Err(e);
                },
                Ok(dp) => {
                    out.push(dp);
                    proof {
                        assert(dps_view(out@) =~= before + seq![out@.last()@]);
                        let sub = control_spec(st.skip(1));
                        match sub {
                            Option::Some(rest) => {
                                assert(control_spec(st) == Some(seq![out@.last()@] + rest));
                                assert(before + (seq![out@.last()@] + rest) =~= dps_view(out@)
                                    + rest);
                            },
                            Option::None => {
                                assert(control_spec(st) == None::<Seq<DebianPackageSpec>>);
                            },
                        }
                    }
                },
            }
        } else {
            proof {
                assert(control_spec(st) == control_spec(st.skip(1)));
            }
        }
        if !sep {
            proof {
                assert(control_spec(st.skip(1)) == Some(Seq::<DebianPackageSpec>::empty()));
                assert(dps_view(out@) + Seq::<DebianPackageSpec>::empty() =~= dps_view(out@));
                assert(before + Seq::<DebianPackageSpec>::empty() =~= before);
            }
            return Ok(out);
        }
        proof {
            assert(st.skip(1) =~= split_stanzas(content@.skip(j as int + 2)));
        }
        i = j + 2;
    }
}

/// The range of versions a relation against `version` admits.
pub fn version_constraint_to_range(relop: &VersionRelation, version: DebianVersion) -> (r:
    VersionRange)
    ensures
        forall|w: Seq<char>|
            r.contains_spec(w) <==> relation_admits(*relop, version@, w),
{
    match relop {
        VersionRelation::ExactlyEqual => VersionRange::singleton(version),
        VersionRelation::LaterOrEqual => VersionRange::higher_or_equal(version),
        VersionRelation::StrictlyLater => VersionRange::strictly_higher(version),
        VersionRelation::StrictlyEarlier => VersionRange::strictly_lower(version),
        VersionRelation::EarlierOrEqual => VersionRange::lower_or_equal(version),
    }
}

} // verus!
verus! {

/// Does the catalog alternative stand for the parsed one: same target
/// name, and its range admits exactly the versions the constraint admits.
pub open spec fn converted_alt_ok(ia: index::AltModel, pa: AltSpec) -> bool {
    ia.name == pa.package && (forall|w: Seq<char>|
        range_contains(ia.range, w) <==> vc_admits(pa.constraint, w))
}

pub open spec fn converted_dep_ok(id: Seq<index::AltModel>, pd: Seq<AltSpec>) -> bool {
    id.len() == pd.len() && (forall|i: int|
        0 <= i < id.len() ==> converted_alt_ok(#[trigger] id[i], pd[i]))
}

pub open spec fn converted_deps_ok(ids: Seq<Seq<index::AltModel>>, pds: Seq<Seq<AltSpec>>) -> bool {
    ids.len() == pds.len() && (forall|i: int|
        0 <= i < ids.len() ==> converted_dep_ok(#[trigger] ids[i], pds[i]))
}

fn convert_alternative(alt: &Alternative) -> (r: index::Alternative)
    ensures
        converted_alt_ok(r@, alt@),
{
    let range = match &alt.version_constraint {
        Some(vc) => {
            let version = DebianVersion(vc.version.clone());
            version_constraint_to_range(&vc.relation, version)
        },
        None => VersionRange::full(),
    };
    let r = index::Alternative { name: alt.package.clone(), range: HashedRange(range) };
    proof {
        assert forall|w: Seq<char>|
            range_contains(r@.range, w) <==> vc_admits(alt@.constraint, w) by {
            assert(r.range.0.contains_spec(w) == range_contains(r@.range, w));
        }
    }
    r
}

fn convert_dependency(dep: &Dependency) -> (r: index::Dependency)
    ensures
        converted_dep_ok(r@, dep@),
{
    let mut alternatives: Vec<index::Alternative> = Vec::new();
    let mut k: usize = 0;
    while k < dep.alternatives.len()
        invariant
            k <= dep.alternatives@.len(),
            alternatives@.len() == k,
            forall|j: int|
                0 <= j < k ==> converted_alt_ok(
                    #[trigger] index::alts_view(alternatives@)[j],
                    dep@[j],
                ),
        decreases dep.alternatives.len() - k,
    {
        let ghost prev = alternatives@;
        alternatives.push(convert_alternative(&dep.alternatives[k]));
        proof {
            assert(dep@[k as int] == dep.alternatives@[k as int]@);
            assert forall|j: int|
                0 <= j < k + 1 implies converted_alt_ok(
                #[trigger] index::alts_view(alternatives@)[j],
                dep@[j],
            ) by {
                if j < k {
                    assert(index::alts_view(alternatives@)[j] == index::alts_view(prev)[j]);
                    assert(converted_alt_ok(index::alts_view(prev)[j], dep@[j]));
                } else {
                    assert(index::alts_view(alternatives@)[j] == alternatives@[j]@);
                }
            }
        }
        k = k + 1;
    }
    index::Dependency { alternatives }
}

/// Convert every parsed dependency of a field into the catalog's form.
pub fn convert_dependency_field(parsed: &Vec<Dependency>) -> (r: Vec<index::Dependency>)
    ensures
        converted_deps_ok(index::deps_view(r@), pdeps_view(parsed@)),
{
    let mut out: Vec<index::Dependency> = Vec::new();
    let mut k: usize = 0;
    while k < parsed.len()
        invariant
            k <= parsed@.len(),
            out@.len() == k,
            forall|j: int|
                0 <= j < k ==> converted_dep_ok(
                    #[trigger] index::deps_view(out@)[j],
                    pdeps_view(parsed@)[j],
                ),
        decreases parsed.len() - k,
    {
        let ghost prev = out@;
        out.push(convert_dependency(&parsed[k]));
        proof {
            assert(pdeps_view(parsed@)[k as int] == parsed@[k as int]@);
            assert forall|j: int|
                0 <= j < k + 1 implies converted_dep_ok(
                #[trigger] index::deps_view(out@)[j],
                pdeps_view(parsed@)[j],
            ) by {
                if j < k {
                    assert(index::deps_view(out@)[j] == index::deps_view(prev)[j]);
                    assert(converted_dep_ok(index::deps_view(prev)[j], pdeps_view(parsed@)[j]));
                } else {
                    assert(index::deps_view(out@)[j] == out@[j]@);
                }
            }
        }
        k = k + 1;
    }
    out
}

/// The key of one registration the construction performs: `j == -1` is
/// the package's own registration under its name and version; `0 <= j`
/// the j-th provides entry, which registers the provided name under the
/// providing package's name as its synthetic version.
pub open spec fn reg_key(ps: Seq<DebianPackage>, i: int, j: int) -> (Seq<char>, Seq<char>) {
    if j < 0 {
        (ps[i].package@, ps[i].version@)
    } else {
        (ps[i].provides@[j]@[0].package, ps[i].package@)
    }
}

pub open spec fn valid_reg(ps: Seq<DebianPackage>, i: int, j: int) -> bool {
    0 <= i < ps.len() && -1 <= j < ps[i].provides@.len()
}

/// No two registrations write the same slot: no pair names the same
/// package with versions that compare equal.
pub open spec fn regs_distinct(ps: Seq<DebianPackage>) -> bool {
    forall|i1: int, j1: int, i2: int, j2: int|
        valid_reg(ps, i1, j1) && valid_reg(ps, i2, j2) && !(i1 == i2 && j1 == j2) ==> !((
        #[trigger] reg_key(ps, i1, j1)).0 == (#[trigger] reg_key(ps, i2, j2)).0 && version_cmp(
            reg_key(ps, i1, j1).1,
            reg_key(ps, i2, j2).1,
        ) == Ordering::Equal)
}

/// What a provides entry stores: one dependency with one alternative,
/// the providing package at exactly its version.
pub open spec fn provides_deps_ok(
    stored: Seq<Seq<AltModel>>,
    provider: Seq<char>,
    ver: Seq<char>,
) -> bool {
    stored.len() == 1 && stored[0].len() == 1 && stored[0][0].name == provider && (forall|
        w: Seq<char>,
    |
        range_contains(stored[0][0].range, w) <==> version_cmp(ver, w) == Ordering::Equal)
}

/// What one registration must have left in the catalog: its slot exists
/// and holds the converted `Depends` (for the package's own registration)
/// or the exact-version edge back to the provider (for a provides entry).
pub open spec fn reg_stored(
    m: Seq<PackageEntryModel>,
    ps: Seq<DebianPackage>,
    i: int,
    j: int,
) -> bool {
    let key = reg_key(ps, i, j);
    slot_stored(m, key.0, key.1) && if j < 0 {
        converted_deps_ok(slot_deps(m, key.0, key.1), pdeps_view(ps[i].depends@))
    } else {
        provides_deps_ok(slot_deps(m, key.0, key.1), ps[i].package@, ps[i].version@)
    }
}

/// Build the catalog from parsed stanzas: each stanza registers its
/// version with its converted dependencies, and each single-alternative
/// `Provides` entry registers the providing package as an exact-version
/// dependency of the provided name. A `Provides` entry with several
/// alternatives is unsupported and must be rejected by the caller first.
/// When no two registrations collide on a slot (the common case), every
/// slot holds exactly what its registration wrote; colliding slots keep
/// the last registration, and every registered name stays known.
#[verifier::rlimit(100)]
pub fn create_index(packages: &Vec<DebianPackage>) -> (r: Index)
    requires
        forall|i: int, j: int|
            0 <= i < packages@.len() && 0 <= j < packages@[i].provides@.len()
                ==> (#[trigger] packages@[i].provides@[j]@).len() == 1,
    ensures
        r.wf(),
        forall|i: int|
            0 <= i < packages@.len() ==> has_pkg(r@, #[trigger] packages@[i].package@),
        forall|i: int, j: int|
            0 <= i < packages@.len() && 0 <= j < packages@[i].provides@.len() ==> has_pkg(
                r@,
                (#[trigger] packages@[i].provides@[j]@)[0].package,
            ),
        regs_distinct(packages@) ==> forall|i: int, j: int|
            valid_reg(packages@, i, j) ==> #[trigger] reg_stored(r@, packages@, i, j),
    {
    let mut ix = Index::new();
    let mut k: usize = 0;
    while k < packages.len()
        invariant
            k <= packages@.len(),
            ix.wf(),
            forall|i: int, j: int|
                0 <= i < packages@.len() && 0 <= j < packages@[i].provides@.len()
                    ==> (#[trigger] packages@[i].provides@[j]@).len() == 1,
            forall|i: int| 0 <= i < k ==> has_pkg(ix@, #[trigger] packages@[i].package@),
            forall|i: int, j: int|
                0 <= i < k && 0 <= j < packages@[i].provides@.len() ==> has_pkg(
                    ix@,
                    (#[trigger] packages@[i].provides@[j]@)[0].package,
                ),
            regs_distinct(packages@) ==> forall|i: int, j: int|
                valid_reg(packages@, i, j) && i < k ==> #[trigger] reg_stored(
                    ix@,
                    packages@,
                    i,
                    j,
                ),
        decreases packages.len() - k,
    {
        let dp = &packages[k];
        let ver = DebianVersion(dp.version.clone());
        let dependencies = convert_dependency_field(&dp.depends);
        let ghost gdeps = deps_view(dependencies@);
        let ghost m_before = ix@;
        ix.add_deps(dp.package.as_str(), ver, dependencies);
        proof {
            lemma_names_kept(m_before, ix@, dp.package@);
            if regs_distinct(packages@) {
                lemma_slot_written(m_before, ix@, dp.package@, dp.version@, gdeps);
                let ghost newkey = reg_key(packages@, k as int, -1);
                assert(newkey == (dp.package@, dp.version@));
                assert forall|i: int, j: int|
                    valid_reg(packages@, i, j) && (i < k || (i == k && j < 0)) implies
                    #[trigger] reg_stored(ix@, packages@, i, j) by {
                    if i == k {
                        assert(slot_stored(ix@, dp.package@, dp.version@));
                        assert(slot_deps(ix@, dp.package@, dp.version@) == gdeps);
                    } else {
                        let key = reg_key(packages@, i, j);
                        assert(reg_stored(m_before, packages@, i, j));
                        assert(slot_stored(m_before, key.0, key.1));
                        assert(!(key.0 == newkey.0 && version_cmp(key.1, newkey.1)
                            == Ordering::Equal));
                        assert(slot_stored(ix@, key.0, key.1) && slot_deps(ix@, key.0, key.1)
                            == slot_deps(m_before, key.0, key.1));
                    }
                }
            }
        }
        let mut t: usize = 0;
        while t < dp.provides.len()
            invariant
                t <= dp.provides@.len(),
                ix.wf(),
                forall|i: int, j: int|
                    0 <= i < packages@.len() && 0 <= j < packages@[i].provides@.len()
                        ==> (#[trigger] packages@[i].provides@[j]@).len() == 1,
                forall|i: int| 0 <= i < k ==> has_pkg(ix@, #[trigger] packages@[i].package@),
                forall|i: int, j: int|
                    0 <= i < k && 0 <= j < packages@[i].provides@.len() ==> has_pkg(
                        ix@,
                        (#[trigger] packages@[i].provides@[j]@)[0].package,
                    ),
                k < packages@.len(),
                *dp == packages@[k as int],
                forall|j: int|
                    0 <= j < t ==> has_pkg(ix@, (#[trigger] dp.provides@[j]@)[0].package),
                has_pkg(ix@, dp.package@),
                regs_distinct(packages@) ==> forall|i: int, j: int|
                    valid_reg(packages@, i, j) && (i < k || (i == k && j < t)) ==>
                    #[trigger] reg_stored(ix@, packages@, i, j),
            decreases dp.provides.len() - t,
        {
            let provided = &dp.provides[t];
            proof {
                assert(provided@.len() == 1);
                assert(provided@[0] == provided.alternatives@[0]@);
            }
            let target = provided.alternatives[0].package.clone();
            let sing = VersionRange::singleton(DebianVersion(dp.version.clone()));
            let alt0 = index::Alternative {
                name: dp.package.clone(),
                range: HashedRange(sing),
            };
            proof {
                assert forall|w: Seq<char>|
                    range_contains(alt0@.range, w) <==> version_cmp(dp.version@, w)
                        == Ordering::Equal by {
                    assert(alt0.range.0.contains_spec(w) == range_contains(alt0@.range, w));
                }
            }
            let ghost a0m = alt0@;
            let mut alts: Vec<index::Alternative> = Vec::new();
            alts.push(alt0);
            let mut deps: Vec<index::Dependency> = Vec::new();
            deps.push(index::Dependency { alternatives: alts });
            let ghost gpdeps = deps_view(deps@);
            proof {
                assert(deps@[0]@ =~= seq![a0m]);
                assert(gpdeps =~= seq![deps@[0]@]);
                assert(provides_deps_ok(gpdeps, dp.package@, dp.version@));
            }
            let ghost m_mid = ix@;
            ix.add_deps(target.as_str(), DebianVersion(dp.package.clone()), deps);
            proof {
                lemma_names_kept(m_mid, ix@, target@);
                assert(has_pkg(ix@, dp.provides@[t as int]@[0].package));
                if regs_distinct(packages@) {
                    lemma_slot_written(m_mid, ix@, target@, dp.package@, gpdeps);
                    let ghost newkey = reg_key(packages@, k as int, t as int);
                    assert(target@ == dp.provides@[t as int]@[0].package);
                    assert(newkey == (target@, dp.package@));
                    assert forall|i: int, j: int|
                        valid_reg(packages@, i, j) && (i < k || (i == k && j < t + 1)) implies
                        #[trigger] reg_stored(ix@, packages@, i, j) by {
                        if i == k && j == t {
                            assert(slot_stored(ix@, target@, dp.package@));
                            assert(slot_deps(ix@, target@, dp.package@) == gpdeps);
                        } else {
                            let key = reg_key(packages@, i, j);
                            assert(reg_stored(m_mid, packages@, i, j));
                            assert(slot_stored(m_mid, key.0, key.1));
                            assert(!(key.0 == newkey.0 && version_cmp(key.1, newkey.1)
                                == Ordering::Equal));
                            assert(slot_stored(ix@, key.0, key.1) && slot_deps(
                                ix@,
                                key.0,
                                key.1,
                            ) == slot_deps(m_mid, key.0, key.1));
                        }
                    }
                }
            }
            t = t + 1;
        }
        k = k + 1;
    }
    ix
}

/// Is a version comparing equal to `ver` stored under `name`?
pub open spec fn slot_stored(m: Seq<PackageEntryModel>, name: Seq<char>, ver: Seq<char>) -> bool {
    has_pkg(m, name) && has_version(entry_of(m, name).versions, ver)
}

/// The dependency lists stored under `name` at the version comparing
/// equal to `ver`.
pub open spec fn slot_deps(m: Seq<PackageEntryModel>, name: Seq<char>, ver: Seq<char>) -> Seq<
    Seq<AltModel>,
> {
    let vs = entry_of(m, name).versions;
    vs[version_slot(vs, ver)].dependencies
}

proof fn lemma_pkg_index_at(m: Seq<PackageEntryModel>, name: Seq<char>, p: int)
    requires
        names_unique(m),
        0 <= p < m.len(),
        m[p].name == name,
    ensures
        has_pkg(m, name),
        pkg_index(m, name) == p,
{
    assert(has_pkg(m, name));
    let p2 = pkg_index(m, name);
    assert(0 <= p2 < m.len() && m[p2].name == name);
    if p2 != p {
        if p < p2 {
            assert(m[p].name != m[p2].name);
        } else {
            assert(m[p2].name != m[p].name);
        }
    }
}

proof fn lemma_version_slot_at(vs: Seq<VersionEntryModel>, v: Seq<char>, q: int)
    requires
        forall|i: int, j: int|
            0 <= i < j < vs.len() ==> version_cmp(vs[i].version, vs[j].version) == Ordering::Less,
        0 <= q < vs.len(),
        version_cmp(vs[q].version, v) == Ordering::Equal,
    ensures
        has_version(vs, v),
        version_slot(vs, v) == q,
{
    assert(has_version(vs, v));
    let q2 = version_slot(vs, v);
    assert(0 <= q2 < vs.len() && version_cmp(vs[q2].version, v) == Ordering::Equal);
    if q2 != q {
        lemma_compare_antisymmetric(vs[q2].version, v);
        lemma_compare_antisymmetric(vs[q].version, v);
        lemma_compare_transitive(vs[q].version, v, vs[q2].version);
        lemma_compare_transitive(vs[q2].version, v, vs[q].version);
        if q < q2 {
            assert(version_cmp(vs[q].version, vs[q2].version) == Ordering::Less);
            assert(version_cmp(vs[q].version, vs[q2].version) == Ordering::Equal);
        } else {
            assert(version_cmp(vs[q2].version, vs[q].version) == Ordering::Less);
            assert(version_cmp(vs[q2].version, vs[q].version) == Ordering::Equal);
        }
        assert(false);
    }
}

/// After one registration, the new slot holds exactly the registered
/// dependencies, and every slot with a different key is unchanged.
proof fn lemma_slot_written(
    m0: Seq<PackageEntryModel>,
    m1: Seq<PackageEntryModel>,
    name: Seq<char>,
    ver: Seq<char>,
    depsm: Seq<Seq<AltModel>>,
)
    requires
        names_unique(m0),
        versions_sorted(m0),
        names_unique(m1),
        versions_sorted(m1),
        ({
            let nv = VersionEntryModel { version: ver, dependencies: depsm };
            if !has_pkg(m0, name) {
                m1 == m0.push(PackageEntryModel { name: name, versions: seq![nv] })
            } else {
                let p = pkg_index(m0, name);
                let vs = m0[p].versions;
                (exists|q: int|
                    0 <= q < vs.len() && version_cmp(vs[q].version, ver) == Ordering::Equal && m1
                        == m0.update(
                        p,
                        PackageEntryModel {
                            name: m0[p].name,
                            versions: vs.update(
                                q,
                                VersionEntryModel {
                                    version: vs[q].version,
                                    dependencies: depsm,
                                },
                            ),
                        },
                    )) || (exists|q: int|
                    0 <= q <= vs.len() && (forall|j: int|
                        0 <= j < q ==> version_cmp(#[trigger] vs[j].version, ver)
                            == Ordering::Less) && (q == vs.len() || version_cmp(vs[q].version, ver)
                        == Ordering::Greater) && m1 == m0.update(
                        p,
                        PackageEntryModel {
                            name: m0[p].name,
                            versions: vs.take(q) + seq![nv] + vs.skip(q),
                        },
                    ))
            }
        }),
    ensures
        slot_stored(m1, name, ver),
        slot_deps(m1, name, ver) == depsm,
        forall|n: Seq<char>, v: Seq<char>|
            #[trigger] slot_stored(m0, n, v) && !(n == name && version_cmp(v, ver)
                == Ordering::Equal) ==> slot_stored(m1, n, v) && slot_deps(m1, n, v) == slot_deps(
                m0,
                n,
                v,
            ),
{
    lemma_compare_reflexive(ver);
    let nv = VersionEntryModel { version: ver, dependencies: depsm };
    if !has_pkg(m0, name) {
        lemma_pkg_index_at(m1, name, m0.len() as int);
        lemma_version_slot_at(m1[m0.len() as int].versions, ver, 0);
        assert forall|n: Seq<char>, v: Seq<char>|
            #[trigger] slot_stored(m0, n, v) && !(n == name && version_cmp(v, ver)
                == Ordering::Equal) implies slot_stored(m1, n, v) && slot_deps(m1, n, v)
            == slot_deps(m0, n, v) by {
            let p0 = pkg_index(m0, n);
            assert(0 <= p0 < m0.len() && m0[p0].name == n);
            assert(m1[p0] == m0[p0]);
            lemma_pkg_index_at(m1, n, p0);
            let q0 = version_slot(m0[p0].versions, v);
            lemma_version_slot_at(m1[p0].versions, v, q0);
        }
    } else {
        let p = pkg_index(m0, name);
        assert(0 <= p < m0.len() && m0[p].name == name);
        let vs = m0[p].versions;
        lemma_pkg_index_at(m1, name, p);
        let replaced = exists|q: int|
            0 <= q < vs.len() && version_cmp(vs[q].version, ver) == Ordering::Equal && m1
                == m0.update(
                p,
                PackageEntryModel {
                    name: m0[p].name,
                    versions: vs.update(
                        q,
                        VersionEntryModel { version: vs[q].version, dependencies: depsm },
                    ),
                },
            );
        if replaced {
            let q = choose|q: int|
                0 <= q < vs.len() && version_cmp(vs[q].version, ver) == Ordering::Equal && m1
                    == m0.update(
                    p,
                    PackageEntryModel {
                        name: m0[p].name,
                        versions: vs.update(
                            q,
                            VersionEntryModel { version: vs[q].version, dependencies: depsm },
                        ),
                    },
                );
            lemma_version_slot_at(m1[p].versions, ver, q);
            assert(slot_deps(m1, name, ver) == depsm);
            assert forall|n: Seq<char>, v: Seq<char>|
                #[trigger] slot_stored(m0, n, v) && !(n == name && version_cmp(v, ver)
                    == Ordering::Equal) implies slot_stored(m1, n, v) && slot_deps(m1, n, v)
                == slot_deps(m0, n, v) by {
                let p0 = pkg_index(m0, n);
                assert(0 <= p0 < m0.len() && m0[p0].name == n);
                lemma_pkg_index_at(m1, n, p0);
                let q0 = version_slot(m0[p0].versions, v);
                assert(version_cmp(m0[p0].versions[q0].version, v) == Ordering::Equal);
                if p0 != p {
                    assert(m1[p0] == m0[p0]);
                    lemma_version_slot_at(m1[p0].versions, v, q0);
                } else {
                    // same entry: the replaced position held a version
                    // comparing equal to `ver`, so a slot for a different
                    // class is elsewhere and untouched
                    if q0 == q {
                        lemma_compare_antisymmetric(vs[q].version, v);
                        lemma_compare_transitive(v, vs[q].version, ver);
                        assert(false);
                    }
                    assert(m1[p].versions[q0] == vs[q0]);
                    lemma_version_slot_at(m1[p].versions, v, q0);
                }
            }
        } else {
            let q = choose|q: int|
                0 <= q <= vs.len() && (forall|j: int|
                    0 <= j < q ==> version_cmp(#[trigger] vs[j].version, ver) == Ordering::Less)
                    && (q == vs.len() || version_cmp(vs[q].version, ver) == Ordering::Greater) && m1
                    == m0.update(
                    p,
                    PackageEntryModel {
                        name: m0[p].name,
                        versions: vs.take(q) + seq![nv] + vs.skip(q),
                    },
                );
            assert(m1[p].versions[q] == nv);
            lemma_version_slot_at(m1[p].versions, ver, q);
            assert(slot_deps(m1, name, ver) == depsm);
            assert forall|n: Seq<char>, v: Seq<char>|
                #[trigger] slot_stored(m0, n, v) && !(n == name && version_cmp(v, ver)
                    == Ordering::Equal) implies slot_stored(m1, n, v) && slot_deps(m1, n, v)
                == slot_deps(m0, n, v) by {
                let p0 = pkg_index(m0, n);
                assert(0 <= p0 < m0.len() && m0[p0].name == n);
                lemma_pkg_index_at(m1, n, p0);
                let q0 = version_slot(m0[p0].versions, v);
                assert(version_cmp(m0[p0].versions[q0].version, v) == Ordering::Equal);
                if p0 != p {
                    assert(m1[p0] == m0[p0]);
                    lemma_version_slot_at(m1[p0].versions, v, q0);
                } else {
                    if q0 < q {
                        assert(m1[p].versions[q0] == vs[q0]);
                        lemma_version_slot_at(m1[p].versions, v, q0);
                    } else {
                        assert(m1[p].versions[q0 + 1] == vs[q0]);
                        lemma_version_slot_at(m1[p].versions, v, q0 + 1);
                    }
                }
            }
        }
    }
}

/// After a registration, the registered name is known and every name
/// known before is still known.
proof fn lemma_names_kept(
    m0: Seq<index::PackageEntryModel>,
    m1: Seq<index::PackageEntryModel>,
    name: Seq<char>,
)
    requires
        (!has_pkg(m0, name) && exists|e: index::PackageEntryModel|
            e.name == name && m1 == m0.push(e)) || (has_pkg(m0, name) && exists|
            e: index::PackageEntryModel,
        | e.name == m0[index::pkg_index(m0, name)].name && m1 == m0.update(
            index::pkg_index(m0, name),
            e,
        )),
    ensures
        has_pkg(m1, name),
        forall|n: Seq<char>| has_pkg(m0, n) ==> has_pkg(m1, n),
{
    if !has_pkg(m0, name) {
        let e = choose|e: index::PackageEntryModel| e.name == name && m1 == m0.push(e);
        assert(m1[m0.len() as int].name == name);
        assert forall|n: Seq<char>| has_pkg(m0, n) implies has_pkg(m1, n) by {
            let w = choose|w: int| 0 <= w < m0.len() && m0[w].name == n;
            assert(m1[w].name == n);
        }
    } else {
        let p = index::pkg_index(m0, name);
        assert(0 <= p < m0.len() && m0[p].name == name);
        let e = choose|e: index::PackageEntryModel|
            e.name == m0[index::pkg_index(m0, name)].name && m1 == m0.update(
                index::pkg_index(m0, name),
                e,
            );
        assert(m1[p].name == name);
        assert forall|n: Seq<char>| has_pkg(m0, n) implies has_pkg(m1, n) by {
            let w = choose|w: int| 0 <= w < m0.len() && m0[w].name == n;
            assert(m1[w].name == n);
        }
    }
}

} // verus!
