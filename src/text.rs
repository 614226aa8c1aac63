//! Character-level helpers: whitespace, splitting into runs, trimming and
//! decimal integer parsing, each with a specification over `Seq<char>`.
use vstd::prelude::*;
use vstd::string::*;

verus! {

/// Unicode `White_Space` characters, as `char::is_whitespace` uses them.
pub open spec fn is_ws(c: char) -> bool {
    let u = c as u32;
    ||| 0x09 <= u <= 0x0d
    ||| u == 0x20
    ||| u == 0x85
    ||| u == 0xa0
    ||| u == 0x1680
    ||| 0x2000 <= u <= 0x200a
    ||| u == 0x2028
    ||| u == 0x2029
    ||| u == 0x202f
    ||| u == 0x205f
    ||| u == 0x3000
}

pub fn is_whitespace(c: char) -> (r: bool)
    ensures
        r == is_ws(c),
{
    let u = c as u32;
    (0x09 <= u && u <= 0x0d) || u == 0x20 || u == 0x85 || u == 0xa0 || u == 0x1680 || (0x2000
        <= u && u <= 0x200a) || u == 0x2028 || u == 0x2029 || u == 0x202f || u == 0x205f || u
        == 0x3000
}

/// What separates the pieces of a text: any whitespace, or one given character.
#[derive(Clone, Copy)]
pub enum Delim {
    Whitespace,
    Char(char),
}

pub open spec fn is_delim(d: Delim, c: char) -> bool {
    match d {
        Delim::Whitespace => is_ws(c),
        Delim::Char(x) => c == x,
    }
}

fn delim_matches(d: Delim, c: char) -> (r: bool)
    ensures
        r == is_delim(d, c),
{
    match d {
        Delim::Whitespace => is_whitespace(c),
        Delim::Char(x) => c == x,
    }
}

/// End of the run of non-delimiter characters that starts at `i`.
pub open spec fn run_end(s: Seq<char>, d: Delim, i: int) -> int
    decreases s.len() - i,
{
    if i < 0 || i >= s.len() || is_delim(d, s[i]) {
        i
    } else {
        run_end(s, d, i + 1)
    }
}

/// The maximal non-empty runs of non-delimiter characters from position `i` on.
pub open spec fn runs_from(s: Seq<char>, d: Delim, i: int) -> Seq<Seq<char>>
    decreases s.len() - i, 1int,
{
    if i < 0 || i >= s.len() {
        seq![]
    } else if is_delim(d, s[i]) {
        runs_from(s, d, i + 1)
    } else {
        let j = run_end(s, d, i);
        if j <= i || j > s.len() {
            seq![]
        } else {
            seq![s.subrange(i, j)] + runs_from(s, d, j)
        }
    }
}

/// The non-empty pieces of `s` between delimiters: `split_whitespace`, or
/// `split(c)` with the empty pieces left out.
pub open spec fn runs(s: Seq<char>, d: Delim) -> Seq<Seq<char>> {
    runs_from(s, d, 0)
}

/// Whitespace-separated tokens of `s`.
pub open spec fn tokens(s: Seq<char>) -> Seq<Seq<char>> {
    runs(s, Delim::Whitespace)
}

pub proof fn lemma_run_end_bounds(s: Seq<char>, d: Delim, i: int)
    requires
        0 <= i <= s.len(),
    ensures
        i <= run_end(s, d, i) <= s.len(),
        forall|k: int| i <= k < run_end(s, d, i) ==> !is_delim(d, #[trigger] s[k]),
        run_end(s, d, i) < s.len() ==> is_delim(d, s[run_end(s, d, i)]),
    decreases s.len() - i,
{
    if i < s.len() && !is_delim(d, s[i]) {
        lemma_run_end_bounds(s, d, i + 1);
    }
}

pub open spec fn views(v: Seq<String>) -> Seq<Seq<char>> {
    Seq::new(v.len(), |i: int| v[i]@)
}

/// The characters of `s`, one per element.
pub fn chars_of(s: &str) -> (v: Vec<char>)
    ensures
        v@ == s@,
{
    let n = s.unicode_len();
    let mut v: Vec<char> = Vec::new();
    let mut i: usize = 0;
    while i < n
        invariant
            i <= n,
            n == s@.len(),
            v@ == s@.take(i as int),
        decreases n - i,
    {
        let c = s.get_char(i);
        v.push(c);
        i = i + 1;
        assert(v@ =~= s@.take(i as int));
    }
    assert(v@ =~= s@);
    v
}

/// The non-empty pieces of `s` between delimiters, in order.
pub fn split_runs(s: &str, d: Delim) -> (r: Vec<String>)
    ensures
        views(r@) == runs(s@, d),
{
    let cs = chars_of(s);
    let n = cs.len();
    let mut out: Vec<String> = Vec::new();
    let mut i: usize = 0;
    while i < n
        invariant
            i <= n,
            n == s@.len(),
            cs@ == s@,
            runs(s@, d) == views(out@) + runs_from(s@, d, i as int),
        decreases n - i,
    {
        if delim_matches(d, cs[i]) {
            i = i + 1;
        } else {
            let start = i;
            proof {
                lemma_run_end_bounds(s@, d, start as int);
            }
            while i < n && !delim_matches(d, cs[i])
                invariant
                    start <= i <= n,
                    n == s@.len(),
                    cs@ == s@,
                    start < n,
                    !is_delim(d, s@[start as int]),
                    run_end(s@, d, start as int) == run_end(s@, d, i as int),
                decreases n - i,
            {
                i = i + 1;
            }
            proof {
                lemma_run_end_bounds(s@, d, start as int);
            }
            let piece = s.substring_char(start, i).to_owned();
            let ghost before = out@;
            out.push(piece);
            assert(views(out@) =~= views(before).push(s@.subrange(start as int, i as int)));
            assert(runs_from(s@, d, start as int) == seq![s@.subrange(start as int, i as int)]
                + runs_from(s@, d, i as int));
            assert(views(out@) + runs_from(s@, d, i as int) =~= views(before) + runs_from(
                s@,
                d,
                start as int,
            ));
        }
    }
    assert(views(out@) + runs_from(s@, d, i as int) =~= views(out@));
    out
}

/// Index of the first character at or after `i` that is not whitespace.
pub open spec fn skip_ws(s: Seq<char>, i: int) -> int
    decreases s.len() - i,
{
    if i < 0 || i >= s.len() || !is_ws(s[i]) {
        i
    } else {
        skip_ws(s, i + 1)
    }
}

/// End of `s.take(j)` once its trailing whitespace is dropped.
pub open spec fn drop_trailing_ws(s: Seq<char>, j: int) -> int
    decreases j,
{
    if j <= 0 || j > s.len() || !is_ws(s[j - 1]) {
        j
    } else {
        drop_trailing_ws(s, j - 1)
    }
}

/// `s` without leading and trailing whitespace, as `str::trim` gives it.
pub open spec fn trimmed(s: Seq<char>) -> Seq<char> {
    let a = skip_ws(s, 0);
    if a >= s.len() {
        seq![]
    } else {
        s.subrange(a, drop_trailing_ws(s, s.len() as int))
    }
}

/// `s` without leading and trailing whitespace.
pub fn trim(s: &str) -> (r: &str)
    ensures
        r@ == trimmed(s@),
{
    let cs = chars_of(s);
    let n = cs.len();
    let mut a: usize = 0;
    while a < n && is_whitespace(cs[a])
        invariant
            a <= n,
            n == s@.len(),
            cs@ == s@,
            skip_ws(s@, 0) == skip_ws(s@, a as int),
        decreases n - a,
    {
        a = a + 1;
    }
    if a >= n {
        return s.substring_char(n, n);
    }
    let mut b: usize = n;
    while b > a && is_whitespace(cs[b - 1])
        invariant
            a < b <= n,
            n == s@.len(),
            cs@ == s@,
            !is_ws(s@[a as int]),
            drop_trailing_ws(s@, n as int) == drop_trailing_ws(s@, b as int),
        decreases b,
    {
        b = b - 1;
    }
    s.substring_char(a, b)
}

/// Splits `s` around the first delimiter character, which belongs to neither part.
pub fn split_once(s: &str, d: Delim) -> (r: Option<(&str, &str)>)
    ensures
        run_end(s@, d, 0) < s@.len() <==> r is Some,
        r matches Some((a, b)) ==> a@ == s@.take(run_end(s@, d, 0)) && b@ == s@.skip(
            run_end(s@, d, 0) + 1,
        ),
{
    let cs = chars_of(s);
    let n = cs.len();
    let mut i: usize = 0;
    while i < n && !delim_matches(d, cs[i])
        invariant
            i <= n,
            n == s@.len(),
            cs@ == s@,
            run_end(s@, d, 0) == run_end(s@, d, i as int),
        decreases n - i,
    {
        i = i + 1;
    }
    if i < n {
        let a = s.substring_char(0, i);
        let b = s.substring_char(i + 1, n);
        assert(a@ =~= s@.take(i as int));
        assert(b@ =~= s@.skip(i + 1));
        Some((a, b))
    } else {
        None
    }
}

/// Whether `p` is a prefix of `s`.
pub open spec fn has_prefix(s: Seq<char>, p: Seq<char>) -> bool {
    p.len() <= s.len() && s.take(p.len() as int) == p
}

/// `s` with the prefix `p` removed, when it has it.
pub fn strip_prefix<'a>(s: &'a str, p: &str) -> (r: Option<&'a str>)
    ensures
        r is Some <==> has_prefix(s@, p@),
        r matches Some(t) ==> t@ == s@.skip(p@.len() as int),
{
    let cs = chars_of(s);
    let ps = chars_of(p);
    if ps.len() > cs.len() {
        return None;
    }
    let mut i: usize = 0;
    while i < ps.len()
        invariant
            i <= ps.len() <= cs.len(),
            cs@ == s@,
            ps@ == p@,
            forall|k: int| 0 <= k < i ==> cs@[k] == ps@[k],
        decreases ps.len() - i,
    {
        if cs[i] != ps[i] {
            assert(s@.take(p@.len() as int)[i as int] != p@[i as int]);
            return None;
        }
        i = i + 1;
    }
    assert(s@.take(p@.len() as int) =~= p@);
    let t = s.substring_char(ps.len(), cs.len());
    assert(t@ =~= s@.skip(p@.len() as int));
    Some(t)
}

/// Whether two texts hold the same characters.
pub fn same_text(a: &str, b: &str) -> (r: bool)
    ensures
        r == (a@ == b@),
{
    let x = chars_of(a);
    let y = chars_of(b);
    if x.len() != y.len() {
        return false;
    }
    let mut i: usize = 0;
    while i < x.len()
        invariant
            i <= x.len() == y.len(),
            x@ == a@,
            y@ == b@,
            forall|k: int| 0 <= k < i ==> x@[k] == y@[k],
        decreases x.len() - i,
    {
        if x[i] != y[i] {
            return false;
        }
        i = i + 1;
    }
    assert(x@ =~= y@);
    true
}

/// Whether `s` holds the character `c`.
pub fn contains_char(s: &str, c: char) -> (r: bool)
    ensures
        r == s@.contains(c),
{
    let cs = chars_of(s);
    let mut i: usize = 0;
    while i < cs.len()
        invariant
            i <= cs.len(),
            cs@ == s@,
            forall|k: int| 0 <= k < i ==> cs@[k] != c,
        decreases cs.len() - i,
    {
        if cs[i] == c {
            return true;
        }
        i = i + 1;
    }
    false
}

pub open spec fn is_digit(c: char) -> bool {
    '0' as u32 <= c as u32 <= '9' as u32
}

pub open spec fn all_digits(s: Seq<char>) -> bool {
    forall|i: int| 0 <= i < s.len() ==> is_digit(#[trigger] s[i])
}

/// Value of a string of decimal digits.
pub open spec fn decimal(s: Seq<char>) -> nat
    decreases s.len(),
{
    if s.len() == 0 {
        0
    } else {
        (decimal(s.drop_last()) * 10 + (s.last() as u32 - '0' as u32)) as nat
    }
}

/// The magnitude that `u64::from_str` reads: an optional `+`, then one or more digits.
pub open spec fn unsigned_value(s: Seq<char>) -> Option<nat> {
    let d = if s.len() > 0 && s[0] == '+' {
        s.drop_first()
    } else {
        s
    };
    if d.len() > 0 && all_digits(d) {
        Some(decimal(d))
    } else {
        None
    }
}

/// What `u64::from_str` accepts, and the value it gives.
pub open spec fn u64_value(s: Seq<char>) -> Option<u64> {
    match unsigned_value(s) {
        Some(n) => if n <= u64::MAX {
            Some(n as u64)
        } else {
            None
        },
        None => None,
    }
}

/// The signed value that `i32::from_str` reads, before its range is checked.
pub open spec fn signed_value(s: Seq<char>) -> Option<int> {
    if s.len() > 0 && s[0] == '-' {
        let d = s.drop_first();
        if d.len() > 0 && all_digits(d) {
            Some(-decimal(d))
        } else {
            None
        }
    } else {
        match unsigned_value(s) {
            Some(n) => Some(n as int),
            None => None,
        }
    }
}

/// What `i32::from_str` accepts, and the value it gives.
pub open spec fn i32_value(s: Seq<char>) -> Option<i32> {
    match signed_value(s) {
        Some(v) => if i32::MIN <= v <= i32::MAX {
            Some(v as i32)
        } else {
            None
        },
        None => None,
    }
}

pub proof fn lemma_decimal_prefix_grows(s: Seq<char>, i: int, j: int)
    requires
        0 <= i <= j <= s.len(),
        all_digits(s),
    ensures
        decimal(s.take(i)) <= decimal(s.take(j)),
    decreases j - i,
{
    if i < j {
        lemma_decimal_prefix_grows(s, i, j - 1);
        assert(s.take(j).drop_last() =~= s.take(j - 1));
    }
}

/// Reads the digits `cs[from..]` as a `u64`; `None` when one is not a digit
/// or the value does not fit.
fn digits_value(cs: &Vec<char>, from: usize) -> (r: Option<u64>)
    requires
        from <= cs@.len(),
    ensures
        r == (if all_digits(cs@.skip(from as int)) && decimal(cs@.skip(from as int)) <= u64::MAX {
            Some(decimal(cs@.skip(from as int)) as u64)
        } else {
            None
        }),
{
    let ghost d = cs@.skip(from as int);
    let mut acc: u64 = 0;
    let mut i: usize = from;
    while i < cs.len()
        invariant
            from <= i <= cs@.len(),
            d == cs@.skip(from as int),
            all_digits(d.take(i - from)),
            acc as nat == decimal(d.take(i - from)),
        decreases cs.len() - i,
    {
        let c = cs[i];
        let ghost k = (i - from) as int;
        let u = c as u32;
        if !(0x30 <= u && u <= 0x39) {
            assert(d[k] == c);
            assert(!is_digit(d[k]));
            return None;
        }
        let v = (u - 0x30) as u64;
        assert(d.take(k + 1).drop_last() =~= d.take(k));
        assert(all_digits(d.take(k + 1)));
        if acc > (u64::MAX - v) / 10 {
            proof {
                assert(decimal(d.take(k + 1)) > u64::MAX) by (nonlinear_arith)
                    requires
                        acc > (u64::MAX - v) / 10,
                        decimal(d.take(k + 1)) == acc * 10 + v,
                        v <= 9,
                ;
                if all_digits(d) {
                    lemma_decimal_prefix_grows(d, k + 1, d.len() as int);
                    assert(d.take(d.len() as int) =~= d);
                }
            }
            return None;
        }
        assert(acc * 10 + v <= u64::MAX) by (nonlinear_arith)
            requires
                acc <= (u64::MAX - v) / 10,
                v <= 9,
        ;
        acc = acc * 10 + v;
        i = i + 1;
    }
    assert(d.take(i - from) =~= d);
    Some(acc)
}

/// Parses `s` as `u64::from_str` does.
pub fn parse_u64(s: &str) -> (r: Option<u64>)
    ensures
        r == u64_value(s@),
{
    let cs = chars_of(s);
    let from: usize = if cs.len() > 0 && cs[0] == '+' {
        1
    } else {
        0
    };
    if from >= cs.len() {
        return None;
    }
    assert(cs@.skip(from as int) =~= (if s@.len() > 0 && s@[0] == '+' {
        s@.drop_first()
    } else {
        s@
    }));
    digits_value(&cs, from)
}

/// Parses `s` as `i32::from_str` does.
pub fn parse_i32(s: &str) -> (r: Option<i32>)
    ensures
        r == i32_value(s@),
{
    let cs = chars_of(s);
    if cs.len() > 0 && cs[0] == '-' {
        if cs.len() < 2 {
            return None;
        }
        assert(cs@.skip(1) =~= s@.drop_first());
        match digits_value(&cs, 1) {
            Some(m) => if m <= 0x8000_0000 {
                Some((0 - (m as i64)) as i32)
            } else {
                None
            },
            None => None,
        }
    } else {
        match parse_u64(s) {
            Some(m) => if m <= 0x7fff_ffff {
                Some(m as i32)
            } else {
                None
            },
            None => None,
        }
    }
}

/// What `usize::from_str` accepts, and the value it gives.
pub open spec fn usize_value(s: Seq<char>) -> Option<usize> {
    match u64_value(s) {
        Some(v) => if v <= usize::MAX {
            Some(v as usize)
        } else {
            None
        },
        None => None,
    }
}

/// Parses `s` as `usize::from_str` does.
pub fn parse_usize(s: &str) -> (r: Option<usize>)
    ensures
        r == usize_value(s@),
{
    match parse_u64(s) {
        Some(v) => if v <= usize::MAX as u64 {
            Some(v as usize)
        } else {
            None
        },
        None => None,
    }
}

/// The first whitespace-separated token of `s`, or nothing.
pub open spec fn first_token(s: Seq<char>) -> Seq<char> {
    if tokens(s).len() > 0 {
        tokens(s)[0]
    } else {
        seq![]
    }
}

/// The first whitespace-separated token of `s`, empty when there is none.
pub fn first_word(s: &str) -> (r: String)
    ensures
        r@ == first_token(s@),
{
    let toks = split_runs(s, Delim::Whitespace);
    if toks.len() > 0 {
        assert(toks@[0]@ == views(toks@)[0]);
        toks[0].clone()
    } else {
        String::new()
    }
}

pub proof fn lemma_run_end_to_end(s: Seq<char>, d: Delim, i: int)
    requires
        0 <= i <= s.len(),
        forall|k: int| i <= k < s.len() ==> !is_delim(d, #[trigger] s[k]),
    ensures
        run_end(s, d, i) == s.len(),
    decreases s.len() - i,
{
    if i < s.len() {
        lemma_run_end_to_end(s, d, i + 1);
    }
}

pub proof fn lemma_run_end_prefix(p: Seq<char>, s: Seq<char>, d: Delim, i: int)
    requires
        p.len() < s.len(),
        s.take(p.len() as int) == p,
        is_delim(d, s[p.len() as int]),
        0 <= i <= p.len(),
    ensures
        run_end(s, d, i) == run_end(p, d, i),
    decreases p.len() - i,
{
    if i < p.len() {
        assert(s[i] == s.take(p.len() as int)[i]);
        if !is_delim(d, p[i]) {
            lemma_run_end_prefix(p, s, d, i + 1);
        }
    }
}

pub proof fn lemma_runs_from_prefix(p: Seq<char>, s: Seq<char>, d: Delim, i: int)
    requires
        p.len() < s.len(),
        s.take(p.len() as int) == p,
        is_delim(d, s[p.len() as int]),
        0 <= i <= p.len(),
    ensures
        runs_from(s, d, i) == runs_from(p, d, i) + runs_from(s, d, p.len() as int),
    decreases p.len() - i,
{
    if i < p.len() {
        assert(s[i] == s.take(p.len() as int)[i]);
        if is_delim(d, p[i]) {
            lemma_runs_from_prefix(p, s, d, i + 1);
        } else {
            lemma_run_end_prefix(p, s, d, i);
            lemma_run_end_bounds(p, d, i);
            let j = run_end(p, d, i);
            lemma_runs_from_prefix(p, s, d, j);
            assert(s.subrange(i, j) =~= p.subrange(i, j)) by {
                assert forall|k: int| i <= k < j implies s[k] == p[k] by {
                    assert(s[k] == s.take(p.len() as int)[k]);
                }
            }
            assert(runs_from(s, d, i) == seq![s.subrange(i, j)] + runs_from(s, d, j));
            assert(runs_from(p, d, i) == seq![p.subrange(i, j)] + runs_from(p, d, j));
            assert(runs_from(s, d, i) =~= runs_from(p, d, i) + runs_from(s, d, p.len() as int));
        }
    } else {
        assert(runs_from(p, d, i) =~= seq![]);
        assert(runs_from(s, d, i) =~= runs_from(p, d, i) + runs_from(s, d, p.len() as int));
    }
}

/// A text with no delimiter `c` is its own single piece.
pub proof fn lemma_runs_single(k: Seq<char>, c: char)
    requires
        k.len() > 0,
        !k.contains(c),
    ensures
        runs(k, Delim::Char(c)) == seq![k],
{
    let d = Delim::Char(c);
    assert forall|m: int| 0 <= m < k.len() implies !is_delim(d, #[trigger] k[m]) by {
        if k[m] == c {
            assert(k.contains(c));
        }
    }
    lemma_run_end_to_end(k, d, 0);
    assert(!is_delim(d, k[0]));
    assert(runs_from(k, d, k.len() as int) == Seq::<Seq<char>>::empty());
    assert(k.subrange(0, k.len() as int) =~= k);
    assert(runs(k, d) =~= seq![k]);
}

/// Appending a delimiter and a piece without delimiters adds that piece.
pub proof fn lemma_runs_append(p: Seq<char>, c: char, k: Seq<char>)
    requires
        k.len() > 0,
        !k.contains(c),
    ensures
        runs(p + seq![c] + k, Delim::Char(c)) == runs(p, Delim::Char(c)) + seq![k],
{
    let d = Delim::Char(c);
    let s = p + seq![c] + k;
    assert(s.take(p.len() as int) =~= p);
    assert(s[p.len() as int] == c);
    lemma_runs_from_prefix(p, s, d, 0);
    let a: int = p.len() as int + 1;
    assert forall|m: int| a <= m < s.len() implies !is_delim(d, #[trigger] s[m]) by {
        assert(s[m] == k[m - a]);
        if k[m - a] == c {
            assert(k.contains(c));
        }
    }
    lemma_run_end_to_end(s, d, a);
    assert(s[a] == k[0]);
    assert(s.subrange(a, s.len() as int) =~= k);
    assert(runs_from(s, d, s.len() as int) == Seq::<Seq<char>>::empty());
    assert(runs_from(s, d, a) =~= seq![k]);
    assert(runs_from(s, d, p.len() as int) == runs_from(s, d, a));
}

} // verus!
