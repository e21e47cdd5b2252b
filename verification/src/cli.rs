//! Command-line rules of `rtail`: numbers with their `+` prefix and size
//! suffixes, the legacy `-NUM` shorthand, and how the parsed options become
//! a [`TailConfig`].
//!
//! Reading the options themselves (their names, values and help) is left
//! to the program around the library; it hands the values over as a
//! [`CommandLine`].

use vstd::prelude::*;
use vstd::string::*;

verus! {

/// Trusted: std's `String::push` appends the character `ch` at the end of
/// the string, so that its characters are the old ones followed by `ch`.
/// Nothing else about it (its allocation) is claimed.
pub assume_specification[ String::push ](s: &mut String, ch: char)
    ensures
        final(s)@ == old(s)@.push(ch),
;

/// The mode for counting: lines or bytes.
#[derive(Debug, Clone, Copy, PartialEq, Eq, Structural)]
pub enum CountMode {
    /// Output the last N lines (default behavior).
    Lines(usize),
    /// Output starting from line N (1-indexed, skip N-1 lines).
    LinesFromStart(usize),
    /// Output the last N bytes.
    Bytes(usize),
    /// Output starting from byte N (1-indexed).
    BytesFromStart(usize),
}

/// How to follow a file for new data.
#[derive(Debug, Clone, Copy, PartialEq, Eq, Structural)]
pub enum FollowMode {
    /// Follow by file descriptor (default for `-f`).
    Descriptor,
    /// Follow by file name (handles log rotation).
    Name,
}

/// Whitespace as Unicode defines it (the `White_Space` property), which is
/// what `str::trim` removes.
pub open spec fn is_white_space(c: char) -> bool {
    let u = c as u32;
    ||| 0x09 <= u <= 0x0D
    ||| u == 0x20
    ||| u == 0x85
    ||| u == 0xA0
    ||| u == 0x1680
    ||| 0x2000 <= u <= 0x200A
    ||| u == 0x2028
    ||| u == 0x2029
    ||| u == 0x202F
    ||| u == 0x205F
    ||| u == 0x3000
}

pub open spec fn is_digit(c: char) -> bool {
    '0' as u32 <= c as u32 <= '9' as u32
}

/// `s` without its leading whitespace.
pub open spec fn trim_start(s: Seq<char>) -> Seq<char>
    decreases s.len(),
{
    if s.len() > 0 && is_white_space(s[0]) {
        trim_start(s.drop_first())
    } else {
        s
    }
}

/// `s` without its trailing whitespace.
pub open spec fn trim_end(s: Seq<char>) -> Seq<char>
    decreases s.len(),
{
    if s.len() > 0 && is_white_space(s.last()) {
        trim_end(s.drop_last())
    } else {
        s
    }
}

/// `s` without leading and trailing whitespace.
pub open spec fn trim(s: Seq<char>) -> Seq<char> {
    trim_end(trim_start(s))
}

/// Number of ASCII digits at the start of `s`.
pub open spec fn digit_prefix_len(s: Seq<char>) -> nat
    decreases s.len(),
{
    if s.len() > 0 && is_digit(s[0]) {
        1 + digit_prefix_len(s.drop_first())
    } else {
        0
    }
}

/// The value of a string of decimal digits.
pub open spec fn decimal_value(s: Seq<char>) -> nat
    decreases s.len(),
{
    if s.len() == 0 {
        0
    } else {
        decimal_value(s.drop_last()) * 10 + (s.last() as u32 - '0' as u32) as nat
    }
}

/// The multiplier of a size suffix, `None` for an unknown suffix.
pub open spec fn suffix_multiplier(s: Seq<char>) -> Option<nat> {
    if s == Seq::<char>::empty() {
        Some(1)
    } else if s == seq!['b'] {
        Some(512)
    } else if s == seq!['k', 'B'] {
        Some(1000)
    } else if s == seq!['K'] || s == seq!['K', 'i', 'B'] {
        Some(1024)
    } else if s == seq!['M', 'B'] {
        Some(1_000_000)
    } else if s == seq!['M'] || s == seq!['M', 'i', 'B'] {
        Some(1_048_576)
    } else if s == seq!['G', 'B'] {
        Some(1_000_000_000)
    } else if s == seq!['G'] || s == seq!['G', 'i', 'B'] {
        Some(1_073_741_824)
    } else if s == seq!['T', 'B'] {
        Some(1_000_000_000_000)
    } else if s == seq!['T'] || s == seq!['T', 'i', 'B'] {
        Some(1_099_511_627_776)
    } else {
        None
    }
}

/// The text of a parse error: `what`, then `x` between single quotes.
pub open spec fn quoted(what: Seq<char>, x: Seq<char>) -> Seq<char> {
    what + x + "'"@
}

/// The number part of a count: the trimmed text without its `+` or `-`
/// sign.
pub open spec fn unsigned_part(s: Seq<char>) -> Seq<char> {
    let t = trim(s);
    if t.len() > 0 && (t[0] == '+' || t[0] == '-') {
        t.drop_first()
    } else {
        t
    }
}

/// What a count such as `+5`, `-3`, `10`, `2K` or `1MB` means: its value,
/// and whether it was prefixed with `+` (counted from the start); or the
/// error text. Surrounding whitespace is ignored, a `-` sign is dropped,
/// and the digits are multiplied by the suffix's multiplier.
pub open spec fn parse_number_spec(s: Seq<char>) -> Result<(nat, bool), Seq<char>> {
    let t = trim(s);
    let from_start = t.len() > 0 && t[0] == '+';
    let r = unsigned_part(s);
    let k = digit_prefix_len(r);
    let digits = r.take(k as int);
    let suffix = r.skip(k as int);
    let base = decimal_value(digits);
    if k == 0 {
        Err(quoted("invalid number: '"@, r))
    } else if base > usize::MAX {
        Err(quoted("invalid number: '"@, digits))
    } else {
        match suffix_multiplier(suffix) {
            None => Err(quoted("invalid suffix: '"@, suffix)),
            Some(m) => if base * m > usize::MAX {
                Err(quoted("number too large: '"@, r))
            } else {
                Ok((base * m, from_start))
            },
        }
    }
}

fn is_white_space_exec(c: char) -> (b: bool)
    ensures
        b == is_white_space(c),
{
    let u = c as u32;
    (0x09 <= u && u <= 0x0D) || u == 0x20 || u == 0x85 || u == 0xA0 || u == 0x1680 || (0x2000
        <= u && u <= 0x200A) || u == 0x2028 || u == 0x2029 || u == 0x202F || u == 0x205F || u
        == 0x3000
}

fn is_digit_exec(c: char) -> (b: bool)
    ensures
        b == is_digit(c),
{
    let u = c as u32;
    '0' as u32 <= u && u <= '9' as u32
}

/// The characters of `s`.
fn chars_of(s: &str) -> (v: Vec<char>)
    ensures
        v@ == s@,
{
    let mut v: Vec<char> = Vec::new();
    for c in it: s.chars()
        invariant
            v@ == it.seq().take(it.index() as int),
    {
        v.push(c);
    }
    v
}

/// The error text `what`, then the characters `cs[lo..hi]` between quotes.
fn quoted_error(what: &str, cs: &Vec<char>, lo: usize, hi: usize) -> (m: String)
    requires
        lo <= hi <= cs@.len(),
    ensures
        m@ == quoted(what@, cs@.subrange(lo as int, hi as int)),
{
    let mut m = String::from_str(what);
    let mut i = lo;
    while i < hi
        invariant
            lo <= i <= hi <= cs@.len(),
            m@ == what@ + cs@.subrange(lo as int, i as int),
        decreases hi - i,
    {
        m.push(cs[i]);
        i = i + 1;
        assert(m@ =~= what@ + cs@.subrange(lo as int, i as int));
    }
    m.append("'");
    m
}

proof fn lemma_trim_start_skip(s: Seq<char>, i: int)
    requires
        0 <= i <= s.len(),
        forall|j: int| 0 <= j < i ==> is_white_space(#[trigger] s[j]),
    ensures
        trim_start(s) == trim_start(s.skip(i)),
    decreases i,
{
    if i > 0 {
        assert(s.drop_first().skip(i - 1) =~= s.skip(i));
        lemma_trim_start_skip(s.drop_first(), i - 1);
    } else {
        assert(s.skip(0) =~= s);
    }
}

proof fn lemma_trim_end_take(s: Seq<char>, h: int)
    requires
        0 <= h <= s.len(),
        forall|j: int| h <= j < s.len() ==> is_white_space(#[trigger] s[j]),
    ensures
        trim_end(s) == trim_end(s.take(h)),
    decreases s.len() - h,
{
    if h < s.len() {
        assert(s.drop_last().take(h) =~= s.take(h));
        lemma_trim_end_take(s.drop_last(), h);
    } else {
        assert(s.take(h) =~= s);
    }
}

proof fn lemma_digit_prefix(s: Seq<char>, k: int)
    requires
        0 <= k <= s.len(),
        forall|j: int| 0 <= j < k ==> is_digit(#[trigger] s[j]),
        k == s.len() || !is_digit(s[k]),
    ensures
        digit_prefix_len(s) == k,
    decreases k,
{
    if k > 0 {
        lemma_digit_prefix(s.drop_first(), k - 1);
    }
}

proof fn lemma_decimal_monotone(s: Seq<char>, i: int)
    requires
        0 <= i <= s.len(),
    ensures
        decimal_value(s.take(i)) <= decimal_value(s),
    decreases s.len() - i,
{
    if i < s.len() {
        assert(s.drop_last().take(i) =~= s.take(i));
        lemma_decimal_monotone(s.drop_last(), i);
        assert(decimal_value(s.drop_last()) <= decimal_value(s)) by (nonlinear_arith)
            requires
                decimal_value(s) == decimal_value(s.drop_last()) * 10 + (s.last() as u32
                    - '0' as u32) as nat,
        ;
    } else {
        assert(s.take(i) =~= s);
    }
}

fn suffix_multiplier_exec(cs: &Vec<char>, lo: usize, hi: usize) -> (m: Option<u64>)
    requires
        lo <= hi <= cs@.len(),
    ensures
        match suffix_multiplier(cs@.subrange(lo as int, hi as int)) {
            None => m is None,
            Some(v) => m == Some(v as u64),
        },
{
    let ghost s = cs@.subrange(lo as int, hi as int);
    let n = hi - lo;
    if n == 0 {
        assert(s =~= Seq::<char>::empty());
        return Some(1);
    }
    let c0 = cs[lo];
    if n == 1 {
        assert(s =~= seq![c0]);
        assert(s[0] == c0);
        assert(seq!['b'][0] == 'b' && seq!['K'][0] == 'K' && seq!['M'][0] == 'M');
        assert(seq!['G'][0] == 'G' && seq!['T'][0] == 'T');
        if c0 == 'b' {
            return Some(512);
        } else if c0 == 'K' {
            return Some(1024);
        } else if c0 == 'M' {
            return Some(1_048_576);
        } else if c0 == 'G' {
            return Some(1_073_741_824);
        } else if c0 == 'T' {
            return Some(1_099_511_627_776);
        }
        return None;
    }
    let c1 = cs[lo + 1];
    if n == 2 {
        assert(s =~= seq![c0, c1]);
        assert(s[0] == c0 && s[1] == c1);
        assert(seq!['k', 'B'][0] == 'k' && seq!['M', 'B'][0] == 'M' && seq!['G', 'B'][0] == 'G');
        assert(seq!['T', 'B'][0] == 'T' && seq!['k', 'B'][1] == 'B' && seq!['M', 'B'][1] == 'B');
        assert(seq!['G', 'B'][1] == 'B' && seq!['T', 'B'][1] == 'B');
        if c1 == 'B' {
            if c0 == 'k' {
                return Some(1000);
            } else if c0 == 'M' {
                return Some(1_000_000);
            } else if c0 == 'G' {
                return Some(1_000_000_000);
            } else if c0 == 'T' {
                return Some(1_000_000_000_000);
            }
        }
        return None;
    }
    let c2 = cs[lo + 2];
    if n == 3 {
        assert(s =~= seq![c0, c1, c2]);
        assert(s[0] == c0 && s[1] == c1 && s[2] == c2);
        assert(seq!['K', 'i', 'B'][0] == 'K' && seq!['M', 'i', 'B'][0] == 'M');
        assert(seq!['G', 'i', 'B'][0] == 'G' && seq!['T', 'i', 'B'][0] == 'T');
        assert(seq!['K', 'i', 'B'][1] == 'i' && seq!['M', 'i', 'B'][1] == 'i');
        assert(seq!['G', 'i', 'B'][1] == 'i' && seq!['T', 'i', 'B'][1] == 'i');
        assert(seq!['K', 'i', 'B'][2] == 'B' && seq!['M', 'i', 'B'][2] == 'B');
        assert(seq!['G', 'i', 'B'][2] == 'B' && seq!['T', 'i', 'B'][2] == 'B');
        if c1 == 'i' && c2 == 'B' {
            if c0 == 'K' {
                return Some(1024);
            } else if c0 == 'M' {
                return Some(1_048_576);
            } else if c0 == 'G' {
                return Some(1_073_741_824);
            } else if c0 == 'T' {
                return Some(1_099_511_627_776);
            }
        }
        return None;
    }
    assert(s.len() > 3);
    None
}

/// The bounds of `cs` without its leading and trailing whitespace.
fn trim_bounds(cs: &Vec<char>) -> (b: (usize, usize))
    ensures
        b.0 <= b.1 <= cs@.len(),
        trim(cs@) == cs@.subrange(b.0 as int, b.1 as int),
{
    let len = cs.len();
    let ghost sv = cs@;
    let mut lo: usize = 0;
    while lo < len && is_white_space_exec(cs[lo])
        invariant
            lo <= len,
            len == cs@.len(),
            forall|j: int| 0 <= j < lo ==> is_white_space(#[trigger] cs@[j]),
        decreases len - lo,
    {
        lo = lo + 1;
    }
    proof {
        lemma_trim_start_skip(sv, lo as int);
        if lo < len {
            assert(trim_start(sv.skip(lo as int)) == sv.skip(lo as int));
        } else {
            assert(sv.skip(lo as int) =~= Seq::<char>::empty());
        }
    }
    let mut hi: usize = len;
    while hi > lo && is_white_space_exec(cs[hi - 1])
        invariant
            lo <= hi <= len,
            len == cs@.len(),
            forall|j: int| hi <= j < len ==> is_white_space(#[trigger] cs@[j]),
        decreases hi - lo,
    {
        hi = hi - 1;
    }
    proof {
        let t = sv.subrange(lo as int, hi as int);
        let t0 = sv.skip(lo as int);
        lemma_trim_end_take(t0, (hi - lo) as int);
        assert(t0.take((hi - lo) as int) =~= t);
        if hi > lo {
            assert(t.last() == cs@[hi - 1]);
        } else {
            assert(t =~= Seq::<char>::empty());
        }
    }
    (lo, hi)
}

/// The end of the run of ASCII digits that starts at `p` in `cs[..hi]`.
fn digit_run_end(cs: &Vec<char>, p: usize, hi: usize) -> (q: usize)
    requires
        p <= hi <= cs@.len(),
    ensures
        p <= q <= hi,
        digit_prefix_len(cs@.subrange(p as int, hi as int)) == q - p,
        forall|j: int| p <= j < q ==> is_digit(#[trigger] cs@[j]),
{
    let mut q = p;
    while q < hi && is_digit_exec(cs[q])
        invariant
            p <= q <= hi <= cs@.len(),
            forall|j: int| p <= j < q ==> is_digit(#[trigger] cs@[j]),
        decreases hi - q,
    {
        q = q + 1;
    }
    proof {
        lemma_digit_prefix(cs@.subrange(p as int, hi as int), (q - p) as int);
    }
    q
}

/// The value of the digits `cs[p..q]`, or `None` when it exceeds
/// `usize::MAX`.
fn decimal_of(cs: &Vec<char>, p: usize, q: usize) -> (v: Option<usize>)
    requires
        p <= q <= cs@.len(),
        forall|j: int| p <= j < q ==> is_digit(#[trigger] cs@[j]),
    ensures
        match v {
            Some(x) => x == decimal_value(cs@.subrange(p as int, q as int)),
            None => decimal_value(cs@.subrange(p as int, q as int)) > usize::MAX,
        },
{
    let ghost digits = cs@.subrange(p as int, q as int);
    let mut base: usize = 0;
    let mut i = p;
    while i < q
        invariant
            p <= i <= q <= cs@.len(),
            digits == cs@.subrange(p as int, q as int),
            forall|j: int| p <= j < q ==> is_digit(#[trigger] cs@[j]),
            base == decimal_value(digits.take(i - p)),
        decreases q - i,
    {
        let dch = cs[i];
        assert(is_digit(cs@[i as int]));
        let dv: usize = (dch as u32 - '0' as u32) as usize;
        assert(digits.take(i + 1 - p).drop_last() =~= digits.take(i - p));
        assert(digits.take(i + 1 - p).last() == dch);
        assert(decimal_value(digits.take(i + 1 - p)) == base * 10 + dv);
        match base.checked_mul(10) {
            None => {
                proof {
                    lemma_decimal_monotone(digits, i + 1 - p);
                }
                return None;
            },
            Some(b10) => match b10.checked_add(dv) {
                None => {
                    proof {
                        lemma_decimal_monotone(digits, i + 1 - p);
                    }
                    return None;
                },
                Some(b) => {
                    base = b;
                },
            },
        }
        i = i + 1;
    }
    assert(digits.take(q - p) =~= digits);
    Some(base)
}

/// Parse a number string that may have a `+` prefix (meaning from-start)
/// and optional suffixes (b, kB, K, MB, M, GB, G, etc.).
///
/// Returns `(value, from_start)` where `from_start` is true if the number
/// was prefixed with `+`.
pub fn parse_number(s: &str) -> (res: Result<(usize, bool), String>)
    ensures
        match parse_number_spec(s@) {
            Ok((v, from_start)) => res == Ok::<(usize, bool), String>((v as usize, from_start)),
            Err(msg) => res is Err && res->Err_0@ == msg,
        },
{
    let cs = chars_of(s);
    let ghost sv = cs@;
    let (lo, hi) = trim_bounds(&cs);
    let ghost t = sv.subrange(lo as int, hi as int);
    // sign
    let mut p = lo;
    let mut from_start = false;
    if p < hi && cs[p] == '+' {
        from_start = true;
        p = p + 1;
    } else if p < hi && cs[p] == '-' {
        p = p + 1;
    }
    let ghost r = sv.subrange(p as int, hi as int);
    assert(unsigned_part(sv) == r) by {
        if lo < hi && (cs@[lo as int] == '+' || cs@[lo as int] == '-') {
            assert(t.drop_first() =~= r);
        } else {
            assert(t =~= r);
        }
    }
    // digits, then suffix
    let q = digit_run_end(&cs, p, hi);
    let ghost k = (q - p) as int;
    assert(r.take(k) =~= sv.subrange(p as int, q as int));
    assert(r.skip(k) =~= sv.subrange(q as int, hi as int));
    if q == p {
        return Err(quoted_error("invalid number: '", &cs, p, hi));
    }
    let base = match decimal_of(&cs, p, q) {
        None => {
            return Err(quoted_error("invalid number: '", &cs, p, q));
        },
        Some(b) => b,
    };
    let mult = match suffix_multiplier_exec(&cs, q, hi) {
        None => {
            return Err(quoted_error("invalid suffix: '", &cs, q, hi));
        },
        Some(m) => m,
    };
    assert(mult <= 1_099_511_627_776);
    assert((base as u128) * (mult as u128) <= 0xffff_ffff_ffff_ffff * 1_099_511_627_776)
        by (nonlinear_arith)
        requires
            base <= 0xffff_ffff_ffff_ffff,
            mult <= 1_099_511_627_776,
    ;
    let product: u128 = (base as u128) * (mult as u128);
    if product > usize::MAX as u128 {
        return Err(quoted_error("number too large: '", &cs, p, hi));
    }
    Ok((product as usize, from_start))
}

/// The string made of the characters `cs[lo..hi]`.
fn substring(cs: &Vec<char>, lo: usize, hi: usize) -> (m: String)
    requires
        lo <= hi <= cs@.len(),
    ensures
        m@ == cs@.subrange(lo as int, hi as int),
{
    let mut m = String::new();
    let mut i = lo;
    while i < hi
        invariant
            lo <= i <= hi <= cs@.len(),
            m@ == cs@.subrange(lo as int, i as int),
        decreases hi - i,
    {
        m.push(cs[i]);
        i = i + 1;
        assert(m@ =~= cs@.subrange(lo as int, i as int));
    }
    m
}

/// Whether `s` is the text `lit`.
fn text_is(s: &String, lit: &str) -> (b: bool)
    ensures
        b == (s@ == lit@),
{
    let l = String::from_str(lit);
    *s == l
}

/// An argument as the legacy `-NUM` rewriting sees it: the text of an
/// argument given on the command line, or a new argument.
pub enum ArgView {
    /// The argument at this index of the given ones, unchanged.
    Given(nat),
    /// A new argument with this text.
    Text(Seq<char>),
}

/// Where an argument of the rewritten command line comes from.
pub enum ArgSource {
    /// The argument at this index of the given ones, unchanged.
    Given(usize),
    /// A new argument with this text.
    Text(String),
}

impl View for ArgSource {
    type V = ArgView;

    open spec fn view(&self) -> ArgView {
        match self {
            ArgSource::Given(i) => ArgView::Given(*i as nat),
            ArgSource::Text(t) => ArgView::Text(t@),
        }
    }
}

/// The views of rewritten arguments.
pub open spec fn arg_views(v: Seq<ArgSource>) -> Seq<ArgView> {
    v.map_values(|a: ArgSource| a@)
}

/// The views of given arguments: their text, or `None` for one that is not
/// valid Unicode.
pub open spec fn given_views(v: Seq<Option<String>>) -> Seq<Option<Seq<char>>> {
    v.map_values(
        |a: Option<String>|
            match a {
                Some(t) => Some(t@),
                None => None,
            },
    )
}

/// The legacy count shorthand: a dash followed by one or more ASCII digits,
/// such as `-30`.
pub open spec fn is_count_shorthand(a: Seq<char>) -> bool {
    &&& a.len() >= 2
    &&& a[0] == '-'
    &&& forall|i: int| 1 <= i < a.len() ==> is_digit(#[trigger] a[i])
}

/// The rewriting of the arguments from index `i` on: each `-NUM` becomes
/// `-n` and `NUM`, except after a bare `--`, from which everything is kept.
pub open spec fn expand_args(args: Seq<Option<Seq<char>>>, i: int, after_separator: bool) -> Seq<
    ArgView,
>
    decreases args.len() - i,
{
    if i < 0 || i >= args.len() {
        Seq::empty()
    } else {
        let here = match args[i] {
            Some(a) => if !after_separator && is_count_shorthand(a) {
                seq![ArgView::Text("-n"@), ArgView::Text(a.drop_first())]
            } else {
                seq![ArgView::Given(i as nat)]
            },
            None => seq![ArgView::Given(i as nat)],
        };
        here + expand_args(args, i + 1, after_separator || args[i] == Some("--"@))
    }
}

/// The whole rewritten command line: the program name first, unchanged.
pub open spec fn preprocess_spec(args: Seq<Option<Seq<char>>>) -> Seq<ArgView> {
    if args.len() == 0 {
        Seq::empty()
    } else {
        seq![ArgView::Given(0)] + expand_args(args, 1, false)
    }
}

fn is_count_shorthand_exec(a: &String) -> (b: bool)
    ensures
        b == is_count_shorthand(a@),
{
    let cs = chars_of(a.as_str());
    if cs.len() < 2 || cs[0] != '-' {
        return false;
    }
    let mut i: usize = 1;
    while i < cs.len()
        invariant
            1 <= i <= cs@.len(),
            cs@ == a@,
            forall|j: int| 1 <= j < i ==> is_digit(#[trigger] cs@[j]),
        decreases cs@.len() - i,
    {
        if !is_digit_exec(cs[i]) {
            return false;
        }
        i = i + 1;
    }
    true
}

/// Rewrites the legacy `-NUM` shorthand (e.g. `tail -30`) into `-n NUM`
/// before the options are read.
///
/// `args` holds each argument's text, `None` for one that is not valid
/// Unicode; the first is the program name. Any later argument of the form
/// `-<digits>` becomes the two arguments `-n` and `<digits>`; everything
/// after a bare `--` separator is passed through unchanged.
pub fn preprocess_args(args: &Vec<Option<String>>) -> (out: Vec<ArgSource>)
    ensures
        arg_views(out@) == preprocess_spec(given_views(args@)),
{
    let ghost av = given_views(args@);
    let mut out: Vec<ArgSource> = Vec::new();
    if args.len() == 0 {
        assert(arg_views(out@) =~= Seq::<ArgView>::empty());
        return out;
    }
    out.push(ArgSource::Given(0));
    let mut after_separator = false;
    let mut i: usize = 1;
    assert(arg_views(out@) =~= seq![ArgView::Given(0)]);
    while i < args.len()
        invariant
            1 <= i <= args@.len(),
            av == given_views(args@),
            arg_views(out@) + expand_args(av, i as int, after_separator) == preprocess_spec(av),
        decreases args@.len() - i,
    {
        let ghost before = arg_views(out@);
        let ghost here_and_rest = expand_args(av, i as int, after_separator);
        let ghost next = after_separator || av[i as int] == Some("--"@);
        match &args[i] {
            Some(a) => {
                assert(av[i as int] == Some(a@));
                let dashes = text_is(a, "--");
                if !after_separator && is_count_shorthand_exec(a) {
                    let cs = chars_of(a.as_str());
                    out.push(ArgSource::Text(String::from_str("-n")));
                    out.push(ArgSource::Text(substring(&cs, 1, cs.len())));
                    assert(cs@.subrange(1, cs@.len() as int) =~= a@.drop_first());
                    assert(arg_views(out@) =~= before + seq![
                        ArgView::Text("-n"@),
                        ArgView::Text(a@.drop_first()),
                    ]);
                } else {
                    out.push(ArgSource::Given(i));
                    assert(arg_views(out@) =~= before + seq![ArgView::Given(i as nat)]);
                }
                if dashes {
                    after_separator = true;
                }
            },
            None => {
                assert(av[i as int] == None::<Seq<char>>);
                out.push(ArgSource::Given(i));
                assert(arg_views(out@) =~= before + seq![ArgView::Given(i as nat)]);
            },
        }
        assert(after_separator == next);
        i = i + 1;
        assert(arg_views(out@) + expand_args(av, i as int, after_separator) =~= before
            + here_and_rest);
    }
    assert(arg_views(out@) + expand_args(av, i as int, after_separator) =~= arg_views(out@));
    out
}


/// The option values read from the command line, before they are checked.
pub struct CommandLine {
    /// `-n`/`--lines NUM`.
    pub lines: Option<String>,
    /// `-c`/`--bytes NUM`.
    pub bytes: Option<String>,
    /// `-f`/`--follow[=MODE]` (`descriptor` when given without a mode).
    pub follow: Option<String>,
    /// `-F`.
    pub follow_retry: bool,
    /// `--retry`.
    pub retry: bool,
    /// `--pid PID`.
    pub pid: Option<u32>,
    /// `-q`/`--quiet`/`--silent`.
    pub quiet: bool,
    /// `-v`/`--verbose`.
    pub verbose: bool,
    /// `-z`/`--zero-terminated`.
    pub zero_terminated: bool,
    /// The file operands.
    pub files: Vec<String>,
}

/// Parsed and validated configuration for the tail operation (the sleep
/// interval of follow mode, a number of seconds, stays with the program
/// that sleeps).
#[derive(Debug, Clone)]
pub struct TailConfig {
    /// What and how much to output.
    pub count_mode: CountMode,
    /// Files to read from. Empty means stdin.
    pub files: Vec<String>,
    /// Whether to follow files for appended data.
    pub follow: Option<FollowMode>,
    /// Whether to keep retrying if a file is inaccessible.
    pub retry: bool,
    /// Process ID to monitor; terminate follow when it dies.
    pub pid: Option<u32>,
    /// Whether to suppress file name headers.
    pub quiet: bool,
    /// Whether to always show file name headers.
    pub verbose: bool,
    /// Use NUL as line delimiter instead of newline.
    pub zero_terminated: bool,
}

/// The count mode given by the options: `--bytes` first, then `--lines`,
/// and the last 10 lines when neither is given; or the error text of the
/// number.
pub open spec fn count_mode_spec(lines: Option<String>, bytes: Option<String>) -> Result<
    CountMode,
    Seq<char>,
> {
    match bytes {
        Some(b) => match parse_number_spec(b@) {
            Err(m) => Err(m),
            Ok((v, from_start)) => Ok(
                if from_start {
                    CountMode::BytesFromStart(v as usize)
                } else {
                    CountMode::Bytes(v as usize)
                },
            ),
        },
        None => match lines {
            Some(l) => match parse_number_spec(l@) {
                Err(m) => Err(m),
                Ok((v, from_start)) => Ok(
                    if from_start {
                        CountMode::LinesFromStart(v as usize)
                    } else {
                        CountMode::Lines(v as usize)
                    },
                ),
            },
            None => Ok(CountMode::Lines(10)),
        },
    }
}

/// The follow mode given by the options: by name with `-F`; otherwise the
/// mode given to `--follow` (`descriptor` or `d`, `name` or `n`); none
/// without either; or the error text of an unknown mode.
pub open spec fn follow_spec(follow: Option<String>, follow_retry: bool) -> Result<
    Option<FollowMode>,
    Seq<char>,
> {
    if follow_retry {
        Ok(Some(FollowMode::Name))
    } else {
        match follow {
            None => Ok(None),
            Some(m) => if m@ == "descriptor"@ || m@ == "d"@ {
                Ok(Some(FollowMode::Descriptor))
            } else if m@ == "name"@ || m@ == "n"@ {
                Ok(Some(FollowMode::Name))
            } else {
                Err(quoted("invalid follow mode: '"@, m@))
            },
        }
    }
}

fn count_mode_of(text: &String, as_bytes: bool) -> (res: Result<CountMode, String>)
    ensures
        match parse_number_spec(text@) {
            Err(m) => res is Err && res->Err_0@ == m,
            Ok((v, from_start)) => res == Ok::<CountMode, String>(
                if as_bytes {
                    if from_start {
                        CountMode::BytesFromStart(v as usize)
                    } else {
                        CountMode::Bytes(v as usize)
                    }
                } else {
                    if from_start {
                        CountMode::LinesFromStart(v as usize)
                    } else {
                        CountMode::Lines(v as usize)
                    }
                },
            ),
        },
{
    match parse_number(text.as_str()) {
        Err(m) => Err(m),
        Ok((v, from_start)) => Ok(
            if as_bytes {
                if from_start {
                    CountMode::BytesFromStart(v)
                } else {
                    CountMode::Bytes(v)
                }
            } else {
                if from_start {
                    CountMode::LinesFromStart(v)
                } else {
                    CountMode::Lines(v)
                }
            },
        ),
    }
}

/// Checks the option values and turns them into a [`TailConfig`]:
/// `--lines` and `--bytes` together are refused; the count comes from
/// [`parse_number`]; `-F` means following by name with retrying.
pub fn config_from_args(args: CommandLine) -> (res: Result<TailConfig, String>)
    ensures
        args.lines is Some && args.bytes is Some ==> res is Err && res->Err_0@
            == "cannot use both --lines and --bytes"@,
        !(args.lines is Some && args.bytes is Some) ==> match count_mode_spec(
            args.lines,
            args.bytes,
        ) {
            Err(m) => res is Err && res->Err_0@ == m,
            Ok(count_mode) => match follow_spec(args.follow, args.follow_retry) {
                Err(m) => res is Err && res->Err_0@ == m,
                Ok(follow) => res is Ok && res->Ok_0 == TailConfig {
                    count_mode,
                    files: args.files,
                    follow,
                    retry: args.retry || args.follow_retry,
                    pid: args.pid,
                    quiet: args.quiet,
                    verbose: args.verbose,
                    zero_terminated: args.zero_terminated,
                },
            },
        },
{
    if args.lines.is_some() && args.bytes.is_some() {
        return Err(String::from_str("cannot use both --lines and --bytes"));
    }
    let count_mode = match &args.bytes {
        Some(b) => match count_mode_of(b, true) {
            Ok(c) => c,
            Err(m) => {
                return Err(m);
            },
        },
        None => match &args.lines {
            Some(l) => match count_mode_of(l, false) {
                Ok(c) => c,
                Err(m) => {
                    return Err(m);
                },
            },
            None => CountMode::Lines(10),
        },
    };
    let follow = if args.follow_retry {
        Some(FollowMode::Name)
    } else {
        match &args.follow {
            None => None,
            Some(m) => {
                if text_is(m, "descriptor") || text_is(m, "d") {
                    Some(FollowMode::Descriptor)
                } else if text_is(m, "name") || text_is(m, "n") {
                    Some(FollowMode::Name)
                } else {
                    let cs = chars_of(m.as_str());
                    return Err(quoted_error("invalid follow mode: '", &cs, 0, cs.len()));
                }
            },
        }
    };
    proof {
        if args.follow is Some && !args.follow_retry {
            let m = args.follow->0;
            if !(m@ == "descriptor"@ || m@ == "d"@ || m@ == "name"@ || m@ == "n"@) {
                assert(m@.subrange(0, m@.len() as int) =~= m@);
            }
        }
    }
    let retry = args.retry || args.follow_retry;
    Ok(
        TailConfig {
            count_mode,
            files: args.files,
            follow,
            retry,
            pid: args.pid,
            quiet: args.quiet,
            verbose: args.verbose,
            zero_terminated: args.zero_terminated,
        },
    )
}


proof fn lemma_trim_end_after_prefix(p: Seq<char>, s: Seq<char>)
    requires
        s.len() > 0,
        !is_white_space(s[0]),
    ensures
        trim_end(p + s) == p + trim_end(s),
        trim_end(s).len() > 0,
        trim_end(s)[0] == s[0],
    decreases s.len(),
{
    assert((p + s).last() == s.last());
    if is_white_space(s.last()) {
        assert(s.len() > 1);
        assert((p + s).drop_last() =~= p + s.drop_last());
        lemma_trim_end_after_prefix(p, s.drop_last());
    }
}

/// The sign of a count does not change its value: `+N` is the same number
/// as `N` counted from the start, with its suffix applied all the same, and
/// `-N` is the same as `N`. (For a count written right after its sign; a
/// space between sign and digits makes it invalid.)
pub proof fn law_sign_does_not_change_value(s: Seq<char>)
    requires
        s.len() > 0,
        !is_white_space(s[0]),
        s[0] != '+',
        s[0] != '-',
    ensures
        parse_number_spec(seq!['+'] + s) == match parse_number_spec(s) {
            Ok((v, _)) => Ok((v, true)),
            Err(m) => Err(m),
        },
        parse_number_spec(seq!['-'] + s) == parse_number_spec(s),
        parse_number_spec(s) is Ok ==> parse_number_spec(s)->Ok_0.1 == false,
{
    let te = trim_end(s);
    lemma_trim_end_after_prefix(seq!['+'], s);
    lemma_trim_end_after_prefix(seq!['-'], s);
    lemma_trim_end_after_prefix(Seq::<char>::empty(), s);
    assert(Seq::<char>::empty() + s =~= s);
    assert(Seq::<char>::empty() + te =~= te);
    assert((seq!['+'] + s)[0] == '+');
    assert((seq!['-'] + s)[0] == '-');
    assert(trim_start(seq!['+'] + s) == seq!['+'] + s);
    assert(trim_start(seq!['-'] + s) == seq!['-'] + s);
    assert(trim_start(s) == s);
    assert((seq!['+'] + te).drop_first() =~= te);
    assert((seq!['-'] + te).drop_first() =~= te);
    assert(unsigned_part(seq!['+'] + s) == te);
    assert(unsigned_part(seq!['-'] + s) == te);
    assert(unsigned_part(s) == te);
}

proof fn lemma_expand_reaches(args: Seq<Option<Seq<char>>>, i0: int, i: int, a: Seq<char>) -> (j: int)
    requires
        1 <= i0 <= i < args.len(),
        args[i] == Some(a),
        is_count_shorthand(a),
        forall|k: int| i0 <= k < i ==> args[k] != Some("--"@),
    ensures
        0 <= j,
        j + 1 < expand_args(args, i0, false).len(),
        expand_args(args, i0, false)[j] == ArgView::Text("-n"@),
        expand_args(args, i0, false)[j + 1] == ArgView::Text(a.drop_first()),
    decreases i - i0,
{
    let rest = expand_args(args, i0 + 1, false);
    if i0 == i {
        let here = seq![ArgView::Text("-n"@), ArgView::Text(a.drop_first())];
        let sep = args[i0] == Some("--"@);
        assert(expand_args(args, i0, false) == here + expand_args(args, i0 + 1, sep));
        0
    } else {
        assert(args[i0] != Some("--"@));
        let here = match args[i0] {
            Some(b) => if is_count_shorthand(b) {
                seq![ArgView::Text("-n"@), ArgView::Text(b.drop_first())]
            } else {
                seq![ArgView::Given(i0 as nat)]
            },
            None => seq![ArgView::Given(i0 as nat)],
        };
        assert(expand_args(args, i0, false) == here + rest);
        let j1 = lemma_expand_reaches(args, i0 + 1, i, a);
        here.len() + j1
    }
}

/// A `-NUM` argument before any `--` is rewritten in place as `-n`
/// followed by the whole count: every character after its dash, in order,
/// so that the count read back is the one written.
pub proof fn law_legacy_count_kept_whole(args: Seq<Option<Seq<char>>>, i: int, a: Seq<char>)
    requires
        1 <= i < args.len(),
        args[i] == Some(a),
        is_count_shorthand(a),
        forall|k: int| 1 <= k < i ==> args[k] != Some("--"@),
    ensures
        exists|j: int|
            {
                &&& 1 <= j
                &&& j + 1 < preprocess_spec(args).len()
                &&& #[trigger] preprocess_spec(args)[j] == ArgView::Text("-n"@)
                &&& preprocess_spec(args)[j + 1] is Text
                &&& preprocess_spec(args)[j + 1]->Text_0.len() + 1 == a.len()
                &&& forall|k: int|
                    0 <= k < a.len() - 1 ==> #[trigger] preprocess_spec(args)[j + 1]->Text_0[k]
                        == a[k + 1]
                &&& forall|k: int|
                    0 <= k < a.len() - 1 ==> is_digit(
                        #[trigger] preprocess_spec(args)[j + 1]->Text_0[k],
                    )
            },
{
    let j = lemma_expand_reaches(args, 1, i, a);
    let out = preprocess_spec(args);
    let t = a.drop_first();
    assert(out == seq![ArgView::Given(0)] + expand_args(args, 1, false));
    assert(out[j + 1] == ArgView::Text("-n"@));
    assert(out[j + 2] == ArgView::Text(t));
    assert forall|k: int| 0 <= k < a.len() - 1 implies is_digit(
        #[trigger] preprocess_spec(args)[(j + 1) + 1]->Text_0[k],
    ) by {
        assert(t[k] == a[k + 1]);
    }
    assert forall|k: int| 0 <= k < a.len() - 1 implies #[trigger] preprocess_spec(args)[(j + 1)
        + 1]->Text_0[k] == a[k + 1] by {}
    assert(preprocess_spec(args)[j + 1] == ArgView::Text("-n"@));
}

/// The number a count mode carries.
pub open spec fn count_of(mode: CountMode) -> nat {
    match mode {
        CountMode::Lines(n) => n as nat,
        CountMode::LinesFromStart(n) => n as nat,
        CountMode::Bytes(n) => n as nat,
        CountMode::BytesFromStart(n) => n as nat,
    }
}

/// Whether a count mode counts bytes.
pub open spec fn counts_bytes(mode: CountMode) -> bool {
    mode is Bytes || mode is BytesFromStart
}

/// Whether a count mode counts from the start.
pub open spec fn counts_from_start(mode: CountMode) -> bool {
    mode is LinesFromStart || mode is BytesFromStart
}

/// The count mode carries the parsed number unchanged: bytes when `--bytes`
/// is given, lines otherwise, from the start exactly when the count had a
/// `+`; a count that does not parse is refused with the parse error; and
/// with no count the last 10 lines are printed.
pub proof fn law_count_mode_carries_parsed_value(lines: Option<String>, bytes: Option<String>)
    ensures
        lines is None && bytes is None ==> count_mode_spec(lines, bytes) == Ok::<
            CountMode,
            Seq<char>,
        >(CountMode::Lines(10)),
        ({
            let given = if bytes is Some {
                bytes
            } else {
                lines
            };
            given is Some ==> match parse_number_spec(given->0@) {
                Ok((v, from_start)) => {
                    &&& count_mode_spec(lines, bytes) is Ok
                    &&& count_of(count_mode_spec(lines, bytes)->Ok_0) == v
                    &&& counts_bytes(count_mode_spec(lines, bytes)->Ok_0) == (bytes is Some)
                    &&& counts_from_start(count_mode_spec(lines, bytes)->Ok_0) == from_start
                },
                Err(m) => count_mode_spec(lines, bytes) == Err::<CountMode, Seq<char>>(m),
            }
        }),
{
}

} // verus!
