//! The Debian version comparison is a total order: reflexive, antisymmetric
//! and transitive. These laws are what the resolver relies on whenever it
//! tests a range, so they are stated and proved here once, over the spec
//! functions that `DebianVersion::compare` is proved against.

use vstd::prelude::*;
use core::cmp::Ordering;
use crate::debian_version::{
    char_cmp, char_rank, epoch_spec, ext_token_cmp, opt_token, revision_spec, str_cmp,
    tilde_token, token_cmp, tokens, tokens_cmp, tokens_cmp_from, upstream_spec, version_cmp,
    TokenModel,
};

verus! {

/// The mirror image of an ordering.
pub open spec fn flip_ord(o: Ordering) -> Ordering {
    match o {
        Ordering::Less => Ordering::Greater,
        Ordering::Equal => Ordering::Equal,
        Ordering::Greater => Ordering::Less,
    }
}

proof fn lemma_char_cmp_flip(c1: char, c2: char)
    ensures
        char_cmp(c2, c1) == flip_ord(char_cmp(c1, c2)),
        char_cmp(c1, c2) == Ordering::Equal <==> c1 == c2,
{
}

proof fn lemma_char_cmp_trans(c1: char, c2: char, c3: char)
    requires
        char_cmp(c1, c2) == Ordering::Less,
        char_cmp(c2, c3) == Ordering::Less,
    ensures
        char_cmp(c1, c3) == Ordering::Less,
{
}

proof fn lemma_str_cmp_refl(a: Seq<char>)
    ensures
        str_cmp(a, a) == Ordering::Equal,
    decreases a.len(),
{
    if a.len() > 0 {
        lemma_str_cmp_refl(a.skip(1));
    }
}

proof fn lemma_str_cmp_eq(a: Seq<char>, b: Seq<char>)
    requires
        str_cmp(a, b) == Ordering::Equal,
    ensures
        a == b,
    decreases a.len(),
{
    if a.len() == 0 && b.len() == 0 {
        assert(a =~= b);
    } else if a.len() == 0 || b.len() == 0 {
        assert(false);
    } else if a[0] == b[0] {
        lemma_str_cmp_eq(a.skip(1), b.skip(1));
        assert(a =~= seq![a[0]] + a.skip(1));
        assert(b =~= seq![b[0]] + b.skip(1));
    } else {
        assert(false);
    }
}

proof fn lemma_str_cmp_flip(a: Seq<char>, b: Seq<char>)
    ensures
        str_cmp(b, a) == flip_ord(str_cmp(a, b)),
    decreases a.len(),
{
    if a.len() > 0 && b.len() > 0 {
        if a[0] == b[0] {
            lemma_str_cmp_flip(a.skip(1), b.skip(1));
        } else {
            lemma_char_cmp_flip(a[0], b[0]);
        }
    }
}

proof fn lemma_str_cmp_trans(a: Seq<char>, b: Seq<char>, c: Seq<char>)
    requires
        str_cmp(a, b) == Ordering::Less,
        str_cmp(b, c) == Ordering::Less,
    ensures
        str_cmp(a, c) == Ordering::Less,
    decreases a.len() + b.len() + c.len(),
{
    if a.len() == 0 {
        // b must be nonempty with b[0] != '~'; c in turn is nonempty
        // and starts with a character at least as large, never '~'.
        assert(b.len() > 0 && b[0] != '~');
        if c.len() == 0 {
            assert(false);
        } else if b[0] == c[0] {
        } else {
            assert(char_cmp(b[0], c[0]) == Ordering::Less);
            assert(c[0] != '~') by {
                if c[0] == '~' {
                    assert(char_rank(b[0]) >= 2);
                }
            }
        }
    } else if b.len() == 0 {
        assert(a[0] == '~');
        assert(c.len() > 0 && c[0] != '~');
        assert(char_cmp(a[0], c[0]) == Ordering::Less);
    } else if c.len() == 0 {
        assert(b[0] == '~');
        if a[0] == b[0] {
            assert(str_cmp(a, c) == Ordering::Less);
        } else {
            assert(char_cmp(a[0], b[0]) == Ordering::Less);
            assert(char_rank(a[0]) < 0);
            assert(false);
        }
    } else {
        if a[0] == b[0] && b[0] == c[0] {
            lemma_str_cmp_trans(a.skip(1), b.skip(1), c.skip(1));
        } else if a[0] == b[0] {
            assert(char_cmp(b[0], c[0]) == Ordering::Less);
            assert(str_cmp(a, c) == char_cmp(a[0], c[0]));
        } else if b[0] == c[0] {
            assert(char_cmp(a[0], b[0]) == Ordering::Less);
            assert(str_cmp(a, c) == char_cmp(a[0], c[0]));
        } else {
            lemma_char_cmp_trans(a[0], b[0], c[0]);
            lemma_char_cmp_flip(a[0], c[0]);
        }
    }
}

proof fn lemma_token_cmp_refl(t: TokenModel)
    ensures
        token_cmp(t, t) == Ordering::Equal,
{
    match t {
        TokenModel::Str(s) => lemma_str_cmp_refl(s),
        TokenModel::Num(_) => {},
    }
}

proof fn lemma_token_cmp_eq(t1: TokenModel, t2: TokenModel)
    requires
        token_cmp(t1, t2) == Ordering::Equal,
    ensures
        t1 == t2,
{
    match (t1, t2) {
        (TokenModel::Str(s1), TokenModel::Str(s2)) => lemma_str_cmp_eq(s1, s2),
        _ => {},
    }
}

proof fn lemma_token_cmp_flip(t1: TokenModel, t2: TokenModel)
    ensures
        token_cmp(t2, t1) == flip_ord(token_cmp(t1, t2)),
{
    match (t1, t2) {
        (TokenModel::Str(s1), TokenModel::Str(s2)) => lemma_str_cmp_flip(s1, s2),
        _ => {},
    }
}

proof fn lemma_token_cmp_trans(t1: TokenModel, t2: TokenModel, t3: TokenModel)
    requires
        token_cmp(t1, t2) == Ordering::Less,
        token_cmp(t2, t3) == Ordering::Less,
    ensures
        token_cmp(t1, t3) == Ordering::Less,
{
    match (t1, t2, t3) {
        (TokenModel::Str(s1), TokenModel::Str(s2), TokenModel::Str(s3)) => {
            lemma_str_cmp_trans(s1, s2, s3)
        },
        _ => {},
    }
}

proof fn lemma_ext_eq(a: Option<TokenModel>, b: Option<TokenModel>)
    requires
        ext_token_cmp(a, b) == Ordering::Equal,
    ensures
        a == b,
{
    match (a, b) {
        (Some(t1), Some(t2)) => lemma_token_cmp_eq(t1, t2),
        _ => {},
    }
}

proof fn lemma_ext_flip(a: Option<TokenModel>, b: Option<TokenModel>)
    ensures
        ext_token_cmp(b, a) == flip_ord(ext_token_cmp(a, b)),
{
    match (a, b) {
        (Some(t1), Some(t2)) => lemma_token_cmp_flip(t1, t2),
        _ => {},
    }
}

proof fn lemma_ext_trans(a: Option<TokenModel>, b: Option<TokenModel>, c: Option<TokenModel>)
    requires
        ext_token_cmp(a, b) == Ordering::Less,
        ext_token_cmp(b, c) == Ordering::Less,
    ensures
        ext_token_cmp(a, c) == Ordering::Less,
{
    match (a, b, c) {
        (Some(t1), Some(t2), Some(t3)) => lemma_token_cmp_trans(t1, t2, t3),
        (None, Some(t2), Some(t3)) => {
            // t2 does not start with '~'; anything above it cannot either.
            assert(!tilde_token(t2));
            assert(token_cmp(t2, t3) == Ordering::Less);
            if tilde_token(t3) {
                match (t2, t3) {
                    (TokenModel::Str(s2), TokenModel::Str(s3)) => {
                        if s2.len() == 0 {
                            assert(str_cmp(s2, s3) == Ordering::Greater);
                        } else if s2[0] == s3[0] {
                            assert(tilde_token(t2));
                        } else {
                            assert(char_cmp(s2[0], s3[0]) == Ordering::Less);
                            assert(char_rank(s2[0]) < 0);
                        }
                    },
                    _ => {},
                }
                assert(false);
            }
        },
        (Some(t1), None, Some(t3)) => {
            assert(tilde_token(t1));
            assert(!tilde_token(t3));
            match (t1, t3) {
                (TokenModel::Str(s1), TokenModel::Str(s3)) => {
                    if s3.len() == 0 {
                        assert(str_cmp(s1, s3) == Ordering::Less);
                    } else {
                        assert(s1[0] == '~' && s3[0] != '~');
                        assert(char_cmp(s1[0], s3[0]) == Ordering::Less);
                    }
                },
                (TokenModel::Str(_), TokenModel::Num(_)) => {},
                _ => {},
            }
        },
        (Some(t1), Some(t2), None) => {
            assert(tilde_token(t2));
            match (t1, t2) {
                (TokenModel::Str(s1), TokenModel::Str(s2)) => {
                    if s1.len() == 0 {
                        assert(str_cmp(s1, s2) == Ordering::Greater);
                        assert(false);
                    } else if s1[0] == s2[0] {
                        assert(tilde_token(t1));
                    } else {
                        assert(char_cmp(s1[0], s2[0]) == Ordering::Less);
                        assert(char_rank(s1[0]) < 0);
                        assert(false);
                    }
                },
                _ => {},
            }
        },
        _ => {},
    }
}

proof fn lemma_tokens_cmp_from_refl(a: Seq<TokenModel>, i: nat)
    ensures
        tokens_cmp_from(a, a, i) == Ordering::Equal,
    decreases a.len() + a.len() - i,
{
    if i < a.len() {
        lemma_token_cmp_refl(a[i as int]);
        lemma_tokens_cmp_from_refl(a, i + 1);
    }
}

proof fn lemma_tokens_cmp_from_eq(a: Seq<TokenModel>, b: Seq<TokenModel>, i: nat)
    requires
        i <= a.len(),
        i <= b.len(),
        tokens_cmp_from(a, b, i) == Ordering::Equal,
    ensures
        a.len() == b.len(),
        forall|j: int| i <= j < a.len() ==> a[j] == b[j],
    decreases a.len() + b.len() - i,
{
    if i >= a.len() && i >= b.len() {
    } else {
        let x = opt_token(a, i as int);
        let y = opt_token(b, i as int);
        assert(ext_token_cmp(x, y) == Ordering::Equal);
        lemma_ext_eq(x, y);
        assert(i < a.len() && i < b.len());
        lemma_tokens_cmp_from_eq(a, b, i + 1);
    }
}

proof fn lemma_tokens_cmp_from_flip(a: Seq<TokenModel>, b: Seq<TokenModel>, i: nat)
    ensures
        tokens_cmp_from(b, a, i) == flip_ord(tokens_cmp_from(a, b, i)),
    decreases a.len() + b.len() - i,
{
    if i >= a.len() && i >= b.len() {
    } else {
        let x = opt_token(a, i as int);
        let y = opt_token(b, i as int);
        lemma_ext_flip(x, y);
        if ext_token_cmp(x, y) == Ordering::Equal {
            lemma_tokens_cmp_from_flip(a, b, i + 1);
        }
    }
}

proof fn lemma_tokens_cmp_from_trans(
    a: Seq<TokenModel>,
    b: Seq<TokenModel>,
    c: Seq<TokenModel>,
    i: nat,
)
    requires
        tokens_cmp_from(a, b, i) == Ordering::Less,
        tokens_cmp_from(b, c, i) == Ordering::Less,
    ensures
        tokens_cmp_from(a, c, i) == Ordering::Less,
    decreases a.len() + b.len() + c.len() - i,
{
    let x = opt_token(a, i as int);
    let y = opt_token(b, i as int);
    let z = opt_token(c, i as int);
    let ab = ext_token_cmp(x, y);
    let bc = ext_token_cmp(y, z);
    if ab == Ordering::Equal && bc == Ordering::Equal {
        lemma_ext_eq(x, y);
        lemma_ext_eq(y, z);
        lemma_tokens_cmp_from_trans(a, b, c, i + 1);
    } else if ab == Ordering::Equal {
        lemma_ext_eq(x, y);
    } else if bc == Ordering::Equal {
        lemma_ext_eq(y, z);
    } else {
        lemma_ext_trans(x, y, z);
    }
}

/// Token-sequence equality under the comparison is real equality.
proof fn lemma_tokens_cmp_eq(a: Seq<TokenModel>, b: Seq<TokenModel>)
    requires
        tokens_cmp(a, b) == Ordering::Equal,
    ensures
        a == b,
{
    lemma_tokens_cmp_from_eq(a, b, 0);
    assert(a =~= b);
}

/// `compare(a, a) == Equal` for every version string.
pub proof fn lemma_compare_reflexive(a: Seq<char>)
    ensures
        version_cmp(a, a) == Ordering::Equal,
{
    reveal(version_cmp);
    lemma_tokens_cmp_from_refl(tokens(upstream_spec(a)), 0);
    lemma_tokens_cmp_from_refl(tokens(revision_spec(a)), 0);
}

/// Antisymmetry: comparing in the other direction mirrors the result, so
/// `compare(a, b) == Less` exactly when `compare(b, a) == Greater`.
pub proof fn lemma_compare_antisymmetric(a: Seq<char>, b: Seq<char>)
    ensures
        version_cmp(b, a) == flip_ord(version_cmp(a, b)),
{
    reveal(version_cmp);
    lemma_tokens_cmp_from_flip(tokens(upstream_spec(a)), tokens(upstream_spec(b)), 0);
    lemma_tokens_cmp_from_flip(tokens(revision_spec(a)), tokens(revision_spec(b)), 0);
}

/// Transitivity of the version order, in the forms the range algebra needs.
pub proof fn lemma_compare_transitive(a: Seq<char>, b: Seq<char>, c: Seq<char>)
    ensures
        version_cmp(a, b) == Ordering::Less && version_cmp(b, c) == Ordering::Less
            ==> version_cmp(a, c) == Ordering::Less,
        version_cmp(a, b) == Ordering::Equal && version_cmp(b, c) == Ordering::Equal
            ==> version_cmp(a, c) == Ordering::Equal,
        version_cmp(a, b) == Ordering::Equal && version_cmp(b, c) == Ordering::Less
            ==> version_cmp(a, c) == Ordering::Less,
        version_cmp(a, b) == Ordering::Less && version_cmp(b, c) == Ordering::Equal
            ==> version_cmp(a, c) == Ordering::Less,
{
    reveal(version_cmp);
    let ua = tokens(upstream_spec(a));
    let ub = tokens(upstream_spec(b));
    let uc = tokens(upstream_spec(c));
    let ra = tokens(revision_spec(a));
    let rb = tokens(revision_spec(b));
    let rc = tokens(revision_spec(c));
    if version_cmp(a, b) == Ordering::Equal {
        lemma_tokens_cmp_eq(ua, ub);
        lemma_tokens_cmp_eq(ra, rb);
    }
    if version_cmp(b, c) == Ordering::Equal {
        lemma_tokens_cmp_eq(ub, uc);
        lemma_tokens_cmp_eq(rb, rc);
    }
    if version_cmp(a, b) == Ordering::Less && version_cmp(b, c) == Ordering::Less {
        if epoch_spec(a) == epoch_spec(b) && epoch_spec(b) == epoch_spec(c) {
            let u1 = tokens_cmp(ua, ub);
            let u2 = tokens_cmp(ub, uc);
            if u1 == Ordering::Less && u2 == Ordering::Less {
                lemma_tokens_cmp_from_trans(ua, ub, uc, 0);
            } else if u1 == Ordering::Less && u2 == Ordering::Equal {
                lemma_tokens_cmp_eq(ub, uc);
            } else if u1 == Ordering::Equal && u2 == Ordering::Less {
                lemma_tokens_cmp_eq(ua, ub);
            } else {
                lemma_tokens_cmp_eq(ua, ub);
                lemma_tokens_cmp_eq(ub, uc);
                lemma_tokens_cmp_from_trans(ra, rb, rc, 0);
            }
        }
    }
}

/// A larger epoch decides the comparison whatever the rest of the
/// version strings hold.
pub proof fn lemma_epoch_dominance(a: Seq<char>, b: Seq<char>)
    requires
        epoch_spec(a) > epoch_spec(b),
    ensures
        version_cmp(a, b) == Ordering::Greater,
{
    reveal(version_cmp);
}

} // verus!
