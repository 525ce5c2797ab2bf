//! Debian version strings and the total order over them.
//!
//! A version string is split into an epoch, an upstream part and a revision,
//! the parts are tokenized into alternating non-digit and digit runs, and the
//! runs are compared positionally with the Debian rules: `~` sorts before
//! everything (even the end of a string), letters sort before non-letters,
//! digit runs compare numerically.

use vstd::prelude::*;
use vstd::string::StrSliceExecFns;
use core::cmp::Ordering;

verus! {

/// A Debian version: an arbitrary string, compared by decomposition,
/// never by raw string equality.
#[derive(Debug, PartialEq, Eq, Hash)]
pub struct DebianVersion(pub String);

impl View for DebianVersion {
    type V = Seq<char>;

    open spec fn view(&self) -> Seq<char> {
        self.0@
    }
}

impl Clone for DebianVersion {
    fn clone(&self) -> (r: Self)
        ensures
            r@ == self@,
    {
        DebianVersion(self.0.clone())
    }
}

/// An ASCII decimal digit.
pub open spec fn is_digit(c: char) -> bool {
    48 <= c as u32 && c as u32 <= 57
}

/// Whether a character counts as a letter for the comparison: the Unicode
/// Alphabetic property, as `char::is_alphabetic` decides it.
pub uninterp spec fn alpha_of(c: char) -> bool;

/// Relies on char::is_alphabetic: whether the character has the Unicode
/// Alphabetic property, a function of the character alone. Within ASCII,
/// exactly the letters a-z and A-Z are alphabetic.
#[verifier::external_body]
fn alphabetic_char(c: char) -> (b: bool)
    ensures
        b == alpha_of(c),
        ((65 <= c as u32 && c as u32 <= 90) || (97 <= c as u32 && c as u32 <= 122)) ==> b,
        ((c as u32) < 128 && !((65 <= c as u32 && c as u32 <= 90) || (97 <= c as u32 && c as u32
            <= 122))) ==> !b,
{
    c.is_alphabetic()
}

/// The class a character sorts into: `~` first, then letters, then the rest.
/// The end of a string sits between `~` (rank 0) and the letters (rank 2).
pub open spec fn char_rank(c: char) -> int {
    if c == '~' {
        0
    } else if alpha_of(c) {
        2
    } else {
        3
    }
}

/// Order of two characters inside a non-digit token.
pub open spec fn char_cmp(c1: char, c2: char) -> Ordering {
    if c1 == c2 {
        Ordering::Equal
    } else if char_rank(c1) < char_rank(c2) {
        Ordering::Less
    } else if char_rank(c1) > char_rank(c2) {
        Ordering::Greater
    } else if (c1 as u32) < (c2 as u32) {
        Ordering::Less
    } else {
        Ordering::Greater
    }
}

/// Order of two non-digit tokens: character by character, where a string
/// that ends is greater than a continuation starting with `~` and less than
/// any other continuation.
pub open spec fn str_cmp(a: Seq<char>, b: Seq<char>) -> Ordering
    decreases a.len(),
{
    if a.len() == 0 && b.len() == 0 {
        Ordering::Equal
    } else if a.len() == 0 {
        if b[0] == '~' {
            Ordering::Greater
        } else {
            Ordering::Less
        }
    } else if b.len() == 0 {
        if a[0] == '~' {
            Ordering::Less
        } else {
            Ordering::Greater
        }
    } else if a[0] == b[0] {
        str_cmp(a.skip(1), b.skip(1))
    } else {
        char_cmp(a[0], b[0])
    }
}

/// Exec test for an ASCII digit.
pub fn digit_char(c: char) -> (b: bool)
    ensures
        b == is_digit(c),
{
    let u = c as u32;
    48 <= u && u <= 57
}

/// Exec order of two characters.
fn char_order(c1: char, c2: char) -> (r: Ordering)
    ensures
        r == char_cmp(c1, c2),
{
    if c1 == c2 {
        return Ordering::Equal;
    }
    let r1 = exec_char_rank(c1);
    let r2 = exec_char_rank(c2);
    if r1 < r2 {
        Ordering::Less
    } else if r1 > r2 {
        Ordering::Greater
    } else if (c1 as u32) < (c2 as u32) {
        Ordering::Less
    } else {
        Ordering::Greater
    }
}

fn exec_char_rank(c: char) -> (r: u32)
    ensures
        r == char_rank(c),
{
    if c == '~' {
        0
    } else if alphabetic_char(c) {
        2
    } else {
        3
    }
}

/// Compare two non-digit tokens (strings) according to Debian rules:
/// characters compare by class then codepoint, and `~` sorts before the
/// end of the string.
pub fn compare_str_token(a: &str, b: &str) -> (r: Ordering)
    ensures
        r == str_cmp(a@, b@),
{
    let alen = a.unicode_len();
    let blen = b.unicode_len();
    let mut i: usize = 0;
    proof {
        assert(a@.skip(0) =~= a@);
        assert(b@.skip(0) =~= b@);
    }
    loop
        invariant
            i <= alen,
            i <= blen,
            alen == a@.len(),
            blen == b@.len(),
            str_cmp(a@, b@) == str_cmp(a@.skip(i as int), b@.skip(i as int)),
        decreases alen - i,
    {
        if i == alen && i == blen {
            return Ordering::Equal;
        }
        if i == alen {
            let c2 = b.get_char(i);
            assert(b@.skip(i as int)[0] == c2);
            return if c2 == '~' {
                Ordering::Greater
            } else {
                Ordering::Less
            };
        }
        if i == blen {
            let c1 = a.get_char(i);
            assert(a@.skip(i as int)[0] == c1);
            return if c1 == '~' {
                Ordering::Less
            } else {
                Ordering::Greater
            };
        }
        let c1 = a.get_char(i);
        let c2 = b.get_char(i);
        assert(a@.skip(i as int)[0] == c1);
        assert(b@.skip(i as int)[0] == c2);
        if c1 == c2 {
            proof {
                assert(a@.skip(i as int).skip(1) =~= a@.skip(i + 1));
                assert(b@.skip(i as int).skip(1) =~= b@.skip(i + 1));
            }
            i = i + 1;
        } else {
            return char_order(c1, c2);
        }
    }
}

/// Spec-level token: a digit run parsed as a number, or a non-digit run.
pub enum TokenModel {
    Num(nat),
    Str(Seq<char>),
}

/// A token is either a numeric token or a non-numeric string token.
#[derive(Debug, PartialEq, Eq)]
pub enum Token {
    Num(u64),
    Str(String),
}

impl View for Token {
    type V = TokenModel;

    open spec fn view(&self) -> TokenModel {
        match self {
            Token::Num(n) => TokenModel::Num(*n as nat),
            Token::Str(s) => TokenModel::Str(s@),
        }
    }
}

/// The numeric value of a digit character.
pub open spec fn digit_of(c: char) -> nat {
    (c as u32 - 48) as nat
}

/// The value of a digit run read in base ten.
pub open spec fn digits_val(s: Seq<char>) -> nat
    decreases s.len(),
{
    if s.len() == 0 {
        0
    } else {
        digits_val(s.drop_last()) * 10 + digit_of(s.last())
    }
}

/// A digit run whose value overflows a `u64` reads as 0.
pub open spec fn sat_u64(n: nat) -> nat {
    if n > u64::MAX {
        0
    } else {
        n
    }
}

/// Length of the leading run of characters whose digit-ness equals `d`.
pub open spec fn run_len(s: Seq<char>, d: bool) -> nat
    decreases s.len(),
{
    if s.len() == 0 || is_digit(s[0]) != d {
        0
    } else {
        1 + run_len(s.skip(1), d)
    }
}

/// The token a uniform run turns into.
pub open spec fn tok_of_run(s: Seq<char>, d: bool) -> TokenModel {
    if d {
        TokenModel::Num(sat_u64(digits_val(s)))
    } else {
        TokenModel::Str(s)
    }
}

/// The alternating runs of a string, in order, without the leading empty
/// string token.
pub open spec fn raw_tokens(s: Seq<char>) -> Seq<TokenModel>
    decreases s.len(),
    via raw_tokens_decreases
{
    if s.len() == 0 {
        Seq::empty()
    } else {
        let d = is_digit(s[0]);
        let n = run_len(s, d);
        seq![tok_of_run(s.take(n as int), d)] + raw_tokens(s.skip(n as int))
    }
}

#[via_fn]
proof fn raw_tokens_decreases(s: Seq<char>) {
    if s.len() > 0 {
        lemma_run_len_bounds(s, is_digit(s[0]));
    }
}

proof fn lemma_run_len_bounds(s: Seq<char>, d: bool)
    ensures
        run_len(s, d) <= s.len(),
        s.len() > 0 && is_digit(s[0]) == d ==> run_len(s, d) >= 1,
    decreases s.len(),
{
    if s.len() > 0 && is_digit(s[0]) == d {
        lemma_run_len_bounds(s.skip(1), d);
    }
}

/// The token sequence of a version component: if the component starts with
/// a digit an empty string token is inserted in front.
pub open spec fn tokens(s: Seq<char>) -> Seq<TokenModel> {
    if s.len() > 0 && is_digit(s[0]) {
        seq![TokenModel::Str(Seq::empty())] + raw_tokens(s)
    } else {
        raw_tokens(s)
    }
}

/// The views of a vector of tokens.
pub open spec fn toks_view(v: Seq<Token>) -> Seq<TokenModel> {
    v.map_values(|t: Token| t@)
}

proof fn lemma_run_len_exact(s: Seq<char>, d: bool, m: nat)
    requires
        m <= s.len(),
        forall|k: int| 0 <= k < m ==> is_digit(s[k]) == d,
        m == s.len() || is_digit(s[m as int]) != d,
    ensures
        run_len(s, d) == m,
    decreases s.len(),
{
    if s.len() == 0 {
    } else if is_digit(s[0]) != d {
        assert(m == 0);
    } else {
        assert(m >= 1);
        let t = s.skip(1);
        assert(forall|k: int| 0 <= k < m - 1 ==> t[k] == s[k + 1]);
        lemma_run_len_exact(t, d, (m - 1) as nat);
    }
}

/// Parse a run of digit characters as `parse::<u64>().unwrap_or(0)` reads
/// it: the value in base ten, or 0 on overflow.
fn parse_digit_run(s: &str, from: usize, to: usize) -> (r: u64)
    requires
        from <= to && to <= s@.len(),
        forall|k: int| from <= k < to ==> is_digit(s@[k]),
    ensures
        r as nat == sat_u64(digits_val(s@.subrange(from as int, to as int))),
{
    let ghost run = s@.subrange(from as int, to as int);
    let mut val: u64 = 0;
    let mut over: bool = false;
    let mut i: usize = from;
    while i < to
        invariant
            from <= i <= to && to <= s@.len(),
            forall|k: int| from <= k < to ==> is_digit(s@[k]),
            run == s@.subrange(from as int, to as int),
            !over ==> val as nat == digits_val(run.take(i - from)),
            over ==> digits_val(run.take(i - from)) > u64::MAX,
        decreases to - i,
    {
        let c = s.get_char(i);
        let d: u64 = (c as u32 - 48) as u64;
        proof {
            assert(run[i - from] == s@[i as int]);
            assert(run.take(i - from + 1).drop_last() =~= run.take(i - from));
            assert(run.take(i - from + 1).last() == run[i - from]);
        }
        if over {
            proof {
                let prev = digits_val(run.take(i - from));
                assert(prev * 10 >= prev) by (nonlinear_arith)
                    requires prev >= 0,
                ;
            }
        } else {
            if val > u64::MAX / 10 || (val == u64::MAX / 10 && d > u64::MAX % 10) {
                over = true;
                proof {
                    let prev = val as nat;
                    assert(prev * 10 + digit_of(run[i - from]) > u64::MAX) by (nonlinear_arith)
                        requires
                            prev > u64::MAX / 10 || (prev == u64::MAX / 10 && digit_of(run[i - from]) > u64::MAX % 10),
                            digit_of(run[i - from]) == d as nat,
                            d <= 9,
                    ;
                }
            } else {
                proof {
                    assert((val as nat) * 10 + (d as nat) <= u64::MAX) by (nonlinear_arith)
                        requires
                            (val as nat) <= u64::MAX / 10,
                            (val as nat) < u64::MAX / 10 || (d as nat) <= u64::MAX % 10,
                            d <= 9,
                    ;
                }
                val = val * 10 + d;
            }
        }
        i = i + 1;
    }
    proof {
        assert(run.take(to - from) =~= run);
    }
    if over {
        0
    } else {
        val
    }
}

/// Tokenize a version string into alternating non-digit and digit tokens.
/// Always starts with a non-digit token (an empty one is inserted when the
/// string starts with a digit).
pub fn tokenize(version: &str) -> (r: Vec<Token>)
    ensures
        toks_view(r@) == tokens(version@),
{
    let n = version.unicode_len();
    let mut toks: Vec<Token> = Vec::new();
    if n > 0 && digit_char(version.get_char(0)) {
        toks.push(Token::Str(String::new()));
    }
    let ghost lead = toks_view(toks@);
    proof {
        assert(lead + raw_tokens(version@) =~= tokens(version@));
        assert(version@.skip(0) =~= version@);
    }
    let mut i: usize = 0;
    while i < n
        invariant
            i <= n,
            n == version@.len(),
            toks_view(toks@) + raw_tokens(version@.skip(i as int)) =~= tokens(version@),
        decreases n - i,
    {
        let d = digit_char(version.get_char(i));
        let mut j: usize = i + 1;
        while j < n && digit_char(version.get_char(j)) == d
            invariant
                i < j <= n,
                n == version@.len(),
                d == is_digit(version@[i as int]),
                forall|k: int| i <= k < j ==> is_digit(version@[k]) == d,
            decreases n - j,
        {
            j = j + 1;
        }
        let ghost tail = version@.skip(i as int);
        proof {
            assert(forall|k: int| 0 <= k < j - i ==> tail[k] == version@[k + i]);
            lemma_run_len_exact(tail, d, (j - i) as nat);
            assert(tail.take(j - i) =~= version@.subrange(i as int, j as int));
            assert(tail.skip(j - i) =~= version@.skip(j as int));
            assert(raw_tokens(tail) == seq![tok_of_run(version@.subrange(i as int, j as int), d)]
                + raw_tokens(version@.skip(j as int)));
        }
        if d {
            let v = parse_digit_run(version, i, j);
            toks.push(Token::Num(v));
        } else {
            let sub = version.substring_char(i, j);
            toks.push(Token::Str(String::from_str(sub)));
        }
        proof {
            assert(toks_view(toks@) =~= toks_view(toks@.drop_last())
                + seq![tok_of_run(version@.subrange(i as int, j as int), d)]);
            assert(toks_view(toks@) + raw_tokens(version@.skip(j as int)) =~= tokens(version@));
        }
        i = j;
    }
    proof {
        assert(version@.skip(n as int) =~= Seq::<char>::empty());
        assert(toks_view(toks@) =~= tokens(version@));
    }
    toks
}

/// The Unicode White_Space set, as `char::is_whitespace` decides it;
/// trimmed from the ends of a version string and separating words.
pub open spec fn is_ws(c: char) -> bool {
    let u = c as u32;
    (9 <= u && u <= 13) || u == 32 || u == 0x85 || u == 0xa0 || u == 0x1680 || (0x2000 <= u && u
        <= 0x200a) || u == 0x2028 || u == 0x2029 || u == 0x202f || u == 0x205f || u == 0x3000
}

/// Length of the leading whitespace run.
pub open spec fn ws_prefix_len(s: Seq<char>) -> nat
    decreases s.len(),
{
    if s.len() == 0 || !is_ws(s[0]) {
        0
    } else {
        1 + ws_prefix_len(s.skip(1))
    }
}

pub open spec fn trim_start_spec(s: Seq<char>) -> Seq<char> {
    s.skip(ws_prefix_len(s) as int)
}

pub open spec fn trim_end_spec(s: Seq<char>) -> Seq<char>
    decreases s.len(),
{
    if s.len() == 0 || !is_ws(s.last()) {
        s
    } else {
        trim_end_spec(s.drop_last())
    }
}

/// The version string with surrounding whitespace removed.
pub open spec fn trim_spec(s: Seq<char>) -> Seq<char> {
    trim_end_spec(trim_start_spec(s))
}

/// Index of the first occurrence of `c`, or -1.
pub open spec fn find_char(s: Seq<char>, c: char) -> int
    decreases s.len(),
{
    if s.len() == 0 {
        -1
    } else if s[0] == c {
        0
    } else {
        let r = find_char(s.skip(1), c);
        if r < 0 {
            -1
        } else {
            r + 1
        }
    }
}

/// Index of the last occurrence of `c`, or -1.
pub open spec fn rfind_char(s: Seq<char>, c: char) -> int
    decreases s.len(),
{
    if s.len() == 0 {
        -1
    } else if s.last() == c {
        s.len() - 1
    } else {
        rfind_char(s.drop_last(), c)
    }
}

pub open spec fn all_digits(s: Seq<char>) -> bool {
    forall|i: int| 0 <= i < s.len() ==> is_digit(s[i])
}

/// What `u64::from_str` accepts: an optional `+`, then at least one digit.
pub open spec fn u64_str_body(s: Seq<char>) -> Seq<char> {
    if s.len() > 0 && s[0] == '+' {
        s.skip(1)
    } else {
        s
    }
}

/// The epoch field read as `parse::<u64>().unwrap_or(0)` reads it.
pub open spec fn parse_u64_spec(s: Seq<char>) -> nat {
    let b = u64_str_body(s);
    if b.len() > 0 && all_digits(b) && digits_val(b) <= u64::MAX {
        digits_val(b)
    } else {
        0
    }
}

/// The part of the trimmed version after the epoch (after the first `:`).
pub open spec fn rest_spec(s: Seq<char>) -> Seq<char> {
    let t = trim_spec(s);
    let p = find_char(t, ':');
    if p >= 0 {
        t.skip(p + 1)
    } else {
        t
    }
}

/// The numeric epoch of a version string, 0 when absent or unreadable.
pub open spec fn epoch_spec(s: Seq<char>) -> nat {
    let t = trim_spec(s);
    let p = find_char(t, ':');
    if p >= 0 {
        parse_u64_spec(t.take(p))
    } else {
        0
    }
}

/// The upstream component: before the last `-` of the rest.
pub open spec fn upstream_spec(s: Seq<char>) -> Seq<char> {
    let r = rest_spec(s);
    let q = rfind_char(r, '-');
    if q >= 0 {
        r.take(q)
    } else {
        r
    }
}

/// The revision component: after the last `-`, defaulting to `"0"`.
pub open spec fn revision_spec(s: Seq<char>) -> Seq<char> {
    let r = rest_spec(s);
    let q = rfind_char(r, '-');
    if q >= 0 {
        r.skip(q + 1)
    } else {
        seq!['0']
    }
}

/// Order of two tokens: numbers compare numerically, strings by
/// `str_cmp`, and a numeric token is greater than a string token.
pub open spec fn token_cmp(t1: TokenModel, t2: TokenModel) -> Ordering {
    match (t1, t2) {
        (TokenModel::Num(n1), TokenModel::Num(n2)) => if n1 < n2 {
            Ordering::Less
        } else if n1 > n2 {
            Ordering::Greater
        } else {
            Ordering::Equal
        },
        (TokenModel::Str(s1), TokenModel::Str(s2)) => str_cmp(s1, s2),
        (TokenModel::Num(_), TokenModel::Str(_)) => Ordering::Greater,
        (TokenModel::Str(_), TokenModel::Num(_)) => Ordering::Less,
    }
}

/// A string token that starts with `~`: such a trailing token makes the
/// shorter side greater.
pub open spec fn tilde_token(t: TokenModel) -> bool {
    match t {
        TokenModel::Str(s) => s.len() > 0 && s[0] == '~',
        TokenModel::Num(_) => false,
    }
}

pub open spec fn opt_token(s: Seq<TokenModel>, i: int) -> Option<TokenModel> {
    if 0 <= i < s.len() {
        Some(s[i])
    } else {
        None
    }
}

/// Order of two token positions where one sequence may have run out.
pub open spec fn ext_token_cmp(a: Option<TokenModel>, b: Option<TokenModel>) -> Ordering {
    match (a, b) {
        (None, None) => Ordering::Equal,
        (Some(t1), Some(t2)) => token_cmp(t1, t2),
        (None, Some(t2)) => if tilde_token(t2) {
            Ordering::Greater
        } else {
            Ordering::Less
        },
        (Some(t1), None) => if tilde_token(t1) {
            Ordering::Less
        } else {
            Ordering::Greater
        },
    }
}

/// Positional order of two token sequences from position `i` on.
pub open spec fn tokens_cmp_from(a: Seq<TokenModel>, b: Seq<TokenModel>, i: nat) -> Ordering
    decreases a.len() + b.len() - i,
{
    if i >= a.len() && i >= b.len() {
        Ordering::Equal
    } else {
        let c = ext_token_cmp(opt_token(a, i as int), opt_token(b, i as int));
        if c != Ordering::Equal {
            c
        } else {
            tokens_cmp_from(a, b, i + 1)
        }
    }
}

/// Positional order of two token sequences.
pub open spec fn tokens_cmp(a: Seq<TokenModel>, b: Seq<TokenModel>) -> Ordering {
    tokens_cmp_from(a, b, 0)
}

/// The total order over Debian version strings: epochs numerically, then
/// upstream token sequences, then revision token sequences.
#[verifier::opaque]
pub open spec fn version_cmp(a: Seq<char>, b: Seq<char>) -> Ordering {
    if epoch_spec(a) < epoch_spec(b) {
        Ordering::Less
    } else if epoch_spec(a) > epoch_spec(b) {
        Ordering::Greater
    } else {
        let u = tokens_cmp(tokens(upstream_spec(a)), tokens(upstream_spec(b)));
        if u != Ordering::Equal {
            u
        } else {
            tokens_cmp(tokens(revision_spec(a)), tokens(revision_spec(b)))
        }
    }
}

pub(crate) fn ws_char(c: char) -> (b: bool)
    ensures
        b == is_ws(c),
{
    let u = c as u32;
    (9 <= u && u <= 13) || u == 32 || u == 0x85 || u == 0xa0 || u == 0x1680 || (0x2000 <= u && u
        <= 0x200a) || u == 0x2028 || u == 0x2029 || u == 0x202f || u == 0x205f || u == 0x3000
}

proof fn lemma_ws_prefix(s: Seq<char>, i: nat)
    requires
        i <= s.len(),
        forall|k: int| 0 <= k < i ==> is_ws(s[k]),
        i == s.len() || !is_ws(s[i as int]),
    ensures
        ws_prefix_len(s) == i,
    decreases s.len(),
{
    if s.len() == 0 || !is_ws(s[0]) {
        assert(i == 0);
    } else {
        let t = s.skip(1);
        assert(forall|k: int| 0 <= k < i - 1 ==> t[k] == s[k + 1]);
        lemma_ws_prefix(t, (i - 1) as nat);
    }
}

proof fn lemma_trim_end(s: Seq<char>, j: nat)
    requires
        j <= s.len(),
        forall|k: int| j <= k < s.len() ==> is_ws(s[k]),
        j == 0 || !is_ws(s[j - 1]),
    ensures
        trim_end_spec(s) == s.take(j as int),
    decreases s.len(),
{
    if s.len() == 0 {
        assert(s.take(0) =~= s);
    } else if !is_ws(s.last()) {
        assert(j == s.len());
        assert(s.take(s.len() as int) =~= s);
    } else {
        assert(j < s.len());
        let t = s.drop_last();
        lemma_trim_end(t, j);
        assert(t.take(j as int) =~= s.take(j as int));
    }
}

/// Remove surrounding whitespace, as `str::trim` does on ASCII input.
pub(crate) fn trim_str<'a>(s: &'a str) -> (t: &'a str)
    ensures
        t@ == trim_spec(s@),
{
    let n = s.unicode_len();
    let mut lo: usize = 0;
    while lo < n && ws_char(s.get_char(lo))
        invariant
            lo <= n,
            n == s@.len(),
            forall|k: int| 0 <= k < lo ==> is_ws(s@[k]),
        decreases n - lo,
    {
        lo = lo + 1;
    }
    proof {
        lemma_ws_prefix(s@, lo as nat);
    }
    let ghost ts = trim_start_spec(s@);
    let mut hi: usize = n;
    while hi > lo && ws_char(s.get_char(hi - 1))
        invariant
            lo <= hi <= n,
            n == s@.len(),
            forall|k: int| hi <= k < n ==> is_ws(s@[k]),
        decreases hi,
    {
        hi = hi - 1;
    }
    proof {
        assert(forall|k: int| 0 <= k < ts.len() ==> ts[k] == s@[k + lo]);
        lemma_trim_end(ts, (hi - lo) as nat);
        assert(ts.take(hi - lo) =~= s@.subrange(lo as int, hi as int));
    }
    s.substring_char(lo, hi)
}

pub(crate) proof fn lemma_find_char(s: Seq<char>, c: char, i: nat)
    requires
        i <= s.len(),
        forall|k: int| 0 <= k < i ==> s[k] != c,
        i == s.len() || s[i as int] == c,
    ensures
        find_char(s, c) == if i == s.len() {
            -1int
        } else {
            i as int
        },
    decreases s.len(),
{
    if s.len() == 0 {
    } else if s[0] == c {
        assert(i == 0);
    } else {
        assert(i >= 1);
        let t = s.skip(1);
        assert(forall|k: int| 0 <= k < i - 1 ==> t[k] == s[k + 1]);
        lemma_find_char(t, c, (i - 1) as nat);
    }
}

proof fn lemma_rfind_char(s: Seq<char>, c: char, j: nat)
    requires
        j <= s.len(),
        forall|k: int| j <= k < s.len() ==> s[k] != c,
        j == 0 || s[j - 1] == c,
    ensures
        rfind_char(s, c) == j - 1,
    decreases s.len(),
{
    if s.len() == 0 {
    } else if s.last() == c {
        assert(j == s.len());
    } else {
        assert(j < s.len());
        lemma_rfind_char(s.drop_last(), c, j);
    }
}

/// First index of `c`, scanning forward.
pub(crate) fn find_in_str(s: &str, c: char) -> (r: Option<usize>)
    ensures
        match r {
            Some(i) => find_char(s@, c) == i && i < s@.len() && s@[i as int] == c && (forall|
                k: int,
            | 0 <= k < i ==> s@[k] != c),
            None => find_char(s@, c) == -1,
        },
{
    let n = s.unicode_len();
    let mut i: usize = 0;
    while i < n && s.get_char(i) != c
        invariant
            i <= n,
            n == s@.len(),
            forall|k: int| 0 <= k < i ==> s@[k] != c,
        decreases n - i,
    {
        i = i + 1;
    }
    proof {
        lemma_find_char(s@, c, i as nat);
    }
    if i == n {
        None
    } else {
        Some(i)
    }
}

/// Last index of `c`, scanning backward.
fn rfind_in_str(s: &str, c: char) -> (r: Option<usize>)
    ensures
        match r {
            Some(i) => rfind_char(s@, c) == i && i < s@.len(),
            None => rfind_char(s@, c) == -1,
        },
{
    let n = s.unicode_len();
    let mut j: usize = n;
    while j > 0 && s.get_char(j - 1) != c
        invariant
            j <= n,
            n == s@.len(),
            forall|k: int| j <= k < n ==> s@[k] != c,
        decreases j,
    {
        j = j - 1;
    }
    proof {
        lemma_rfind_char(s@, c, j as nat);
    }
    if j == 0 {
        None
    } else {
        Some(j - 1)
    }
}

/// Read a string as `u64::from_str` with `unwrap_or(0)` does.
fn parse_u64_or_zero(s: &str) -> (r: u64)
    ensures
        r as nat == parse_u64_spec(s@),
{
    let n = s.unicode_len();
    if n == 0 {
        return 0;
    }
    let from: usize = if s.get_char(0) == '+' {
        1
    } else {
        0
    };
    let ghost body = u64_str_body(s@);
    proof {
        assert(body =~= s@.subrange(from as int, n as int));
    }
    if from == n {
        return 0;
    }
    let mut i: usize = from;
    while i < n
        invariant
            from <= i <= n,
            n == s@.len(),
            body == u64_str_body(s@),
            body == s@.subrange(from as int, n as int),
            forall|k: int| from <= k < i ==> is_digit(s@[k]),
        decreases n - i,
    {
        if !digit_char(s.get_char(i)) {
            proof {
                assert(body[i - from] == s@[i as int]);
                assert(!all_digits(body));
            }
            return 0;
        }
        i = i + 1;
    }
    proof {
        assert(forall|k: int| 0 <= k < body.len() ==> body[k] == s@[k + from]);
        assert(all_digits(body));
    }
    parse_digit_run(s, from, n)
}

/// Does the string hold a `/` anywhere?
pub(crate) fn find_slash(s: &str) -> (b: bool)
    ensures
        b == (find_char(s@, '/') != -1),
{
    matches!(find_in_str(s, '/'), Some(_))
}

impl DebianVersion {
    /// Splits the version string into (epoch, upstream, debian_revision).
    /// If the epoch is absent, it defaults to 0.
    /// If the debian_revision is absent, it defaults to "0".
    pub fn split(&self) -> (res: (u64, String, String))
        ensures
            res.0 as nat == epoch_spec(self@),
            res.1@ == upstream_spec(self@),
            res.2@ == revision_spec(self@),
    {
        let t = trim_str(self.0.as_str());
        let n = t.unicode_len();
        let (epoch, rest_lo) = match find_in_str(t, ':') {
            Some(p) => {
                let e = parse_u64_or_zero(t.substring_char(0, p));
                proof {
                    assert(t@.subrange(0, p as int) =~= t@.take(p as int));
                }
                (e, p + 1)
            },
            None => (0u64, 0usize),
        };
        let rest = t.substring_char(rest_lo, n);
        proof {
            assert(rest@ =~= rest_spec(self@));
        }
        let m = rest.unicode_len();
        match rfind_in_str(rest, '-') {
            Some(q) => {
                let up = rest.substring_char(0, q);
                let rev = rest.substring_char(q + 1, m);
                proof {
                    assert(up@ =~= upstream_spec(self@));
                    assert(rev@ =~= revision_spec(self@));
                }
                (epoch, String::from_str(up), String::from_str(rev))
            },
            None => {
                let rev = String::from_str("0");
                proof {
                    reveal_strlit("0");
                    assert(rev@ =~= seq!['0']);
                    assert(rest@ =~= upstream_spec(self@));
                }
                (epoch, String::from_str(rest), rev)
            },
        }
    }

    /// Tokenizes a version component (either upstream or debian) into
    /// alternating non-digit and digit tokens.
    pub fn tokenize_str(s: &str) -> (r: Vec<Token>)
        ensures
            toks_view(r@) == tokens(s@),
    {
        tokenize(s)
    }
}

/// Compare two tokens.
pub fn compare_tokens(a: &Token, b: &Token) -> (r: Ordering)
    ensures
        r == token_cmp(a@, b@),
{
    match (a, b) {
        (Token::Num(n1), Token::Num(n2)) => if n1 < n2 {
            Ordering::Less
        } else if n1 > n2 {
            Ordering::Greater
        } else {
            Ordering::Equal
        },
        (Token::Str(s1), Token::Str(s2)) => compare_str_token(s1.as_str(), s2.as_str()),
        (Token::Num(_), Token::Str(_)) => Ordering::Greater,
        (Token::Str(_), Token::Num(_)) => Ordering::Less,
    }
}

fn tilde_tok(t: &Token) -> (b: bool)
    ensures
        b == tilde_token(t@),
{
    match t {
        Token::Str(s) => s.as_str().unicode_len() > 0 && s.as_str().get_char(0) == '~',
        Token::Num(_) => false,
    }
}

/// Compare two token sequences positionally, with the ragged-tail rule.
fn compare_token_seqs(a: &Vec<Token>, b: &Vec<Token>) -> (r: Ordering)
    ensures
        r == tokens_cmp(toks_view(a@), toks_view(b@)),
{
    let ghost va = toks_view(a@);
    let ghost vb = toks_view(b@);
    let mut i: usize = 0;
    loop
        invariant
            i <= va.len() || i <= vb.len(),
            va == toks_view(a@),
            vb == toks_view(b@),
            va.len() == a@.len(),
            vb.len() == b@.len(),
            tokens_cmp(va, vb) == tokens_cmp_from(va, vb, i as nat),
        decreases va.len() + vb.len() - i,
    {
        let c = if i < a.len() && i < b.len() {
            compare_tokens(&a[i], &b[i])
        } else if i < a.len() {
            if tilde_tok(&a[i]) {
                Ordering::Less
            } else {
                Ordering::Greater
            }
        } else if i < b.len() {
            if tilde_tok(&b[i]) {
                Ordering::Greater
            } else {
                Ordering::Less
            }
        } else {
            return Ordering::Equal;
        };
        if !matches!(c, Ordering::Equal) {
            return c;
        }
        i = i + 1;
    }
}

impl DebianVersion {
    /// The Debian total order over version strings.
    pub fn compare(&self, other: &Self) -> (r: Ordering)
        ensures
            r == version_cmp(self@, other@),
    {
        proof {
            reveal(version_cmp);
        }
        let (e1, u1, r1) = self.split();
        let (e2, u2, r2) = other.split();
        if e1 < e2 {
            return Ordering::Less;
        }
        if e1 > e2 {
            return Ordering::Greater;
        }
        let ut1 = tokenize(u1.as_str());
        let ut2 = tokenize(u2.as_str());
        let u = compare_token_seqs(&ut1, &ut2);
        if !matches!(u, Ordering::Equal) {
            return u;
        }
        let rt1 = tokenize(r1.as_str());
        let rt2 = tokenize(r2.as_str());
        compare_token_seqs(&rt1, &rt2)
    }
}

} // verus!
