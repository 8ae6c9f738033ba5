//! Character-level text primitives: whitespace, trimming, splitting at runs of
//! a character, and the conversions between `&str` and character vectors.

use vstd::prelude::*;

verus! {

/// The characters of `s`, in order.
pub fn chars_of(s: &str) -> (v: Vec<char>)
    ensures
        v@ == s@,
{
    let mut v: Vec<char> = Vec::new();
    for c in it: s.chars()
        invariant
            v@ == it.seq().take(it.index() as int),
            it.seq() == s@,
    {
        v.push(c);
    }
    v
}

} // verus!

verus! {

/// `n` copies of `c` stand in `s` from position `i` on.
pub open spec fn run_at(s: Seq<char>, c: char, n: nat, i: int) -> bool {
    &&& 0 <= i
    &&& i + n <= s.len()
    &&& forall|k: int| i <= k < i + n ==> s[k] == c
}

/// The leftmost position at or after `i` where `n` copies of `c` stand.
pub open spec fn next_run(s: Seq<char>, c: char, n: nat, i: nat) -> Option<nat>
    decreases s.len() - i,
{
    if i + n > s.len() {
        None
    } else if run_at(s, c, n, i as int) {
        Some(i)
    } else {
        next_run(s, c, n, i + 1)
    }
}

pub proof fn lemma_next_run_found(s: Seq<char>, c: char, n: nat, i: nat)
    ensures
        next_run(s, c, n, i) matches Some(j) ==> i <= j && j + n <= s.len() && run_at(
            s,
            c,
            n,
            j as int,
        ),
    decreases s.len() - i,
{
    if i + n <= s.len() && !run_at(s, c, n, i as int) {
        lemma_next_run_found(s, c, n, i + 1);
    }
}

/// The pieces of `s[start..]` between the leftmost non-overlapping runs of `n`
/// copies of `c`, the runs themselves left out.
pub open spec fn pieces_from(s: Seq<char>, c: char, n: nat, start: nat) -> Seq<Seq<char>>
    decreases s.len() - start,
{
    if n == 0 || start > s.len() {
        seq![]
    } else {
        match next_run(s, c, n, start) {
            None => seq![s.subrange(start as int, s.len() as int)],
            Some(j) => {
                proof {
                    lemma_next_run_found(s, c, n, start);
                }
                seq![s.subrange(start as int, j as int)] + pieces_from(s, c, n, j + n)
            },
        }
    }
}

/// `s` split at the leftmost non-overlapping runs of `n` copies of `c`, as
/// `str::split` does with that run as the pattern.
pub open spec fn split_runs(s: Seq<char>, c: char, n: nat) -> Seq<Seq<char>> {
    pieces_from(s, c, n, 0)
}

/// The pieces of `s` that the spans `r` mark.
pub open spec fn spans(s: Seq<char>, r: Seq<(usize, usize)>) -> Seq<Seq<char>> {
    Seq::new(r.len(), |k: int| s.subrange(r[k].0 as int, r[k].1 as int))
}

/// Every span of `r` lies inside `s`.
pub open spec fn spans_valid(s: Seq<char>, r: Seq<(usize, usize)>) -> bool {
    forall|k: int| 0 <= k < r.len() ==> #[trigger] r[k].0 <= r[k].1 <= s.len()
}

fn has_run(s: &Vec<char>, c: char, count: usize, i: usize) -> (b: bool)
    requires
        i <= s@.len(),
    ensures
        b == run_at(s@, c, (count + 1) as nat, i as int),
{
    if count >= s.len() - i {
        return false;
    }
    let mut k: usize = 0;
    while k <= count
        invariant
            k <= count + 1,
            i + count + 1 <= s@.len() <= usize::MAX,
            forall|j: int| i <= j < i + k ==> s@[j] == c,
        decreases count + 1 - k,
    {
        if s[i + k] != c {
            return false;
        }
        k += 1;
    }
    true
}

/// The spans of the pieces of `s` between the leftmost non-overlapping runs
/// of `count + 1` copies of `c`.
pub fn run_pieces(s: &Vec<char>, c: char, count: usize) -> (r: Vec<(usize, usize)>)
    ensures
        spans_valid(s@, r@),
        spans(s@, r@) == split_runs(s@, c, (count + 1) as nat),
{
    let ghost n: nat = (count + 1) as nat;
    let len = s.len();
    let mut r: Vec<(usize, usize)> = Vec::new();
    let mut start: usize = 0;
    let mut i: usize = 0;
    while i < len
        invariant
            len == s@.len(),
            n == count + 1,
            start <= i <= len,
            next_run(s@, c, n, start as nat) == next_run(s@, c, n, i as nat),
            spans_valid(s@, r@),
            spans(s@, r@) + pieces_from(s@, c, n, start as nat) == split_runs(s@, c, n),
        decreases len - i,
    {
        if has_run(s, c, count, i) {
            let ghost old_r = r@;
            let ghost rest = pieces_from(s@, c, n, (i + n) as nat);
            assert(pieces_from(s@, c, n, start as nat) == seq![
                s@.subrange(start as int, i as int),
            ] + rest);
            r.push((start, i));
            assert(spans_valid(s@, r@)) by {
                assert forall|k: int| 0 <= k < r@.len() implies #[trigger] r@[k].0 <= r@[k].1
                    <= s@.len() by {
                    if k < old_r.len() {
                        assert(r@[k] == old_r[k]);
                    }
                }
            }
            assert(spans(s@, r@) =~= spans(s@, old_r).push(s@.subrange(start as int, i as int)));
            assert(spans(s@, r@) + rest =~= spans(s@, old_r) + (seq![
                s@.subrange(start as int, i as int),
            ] + rest));
            i = i + count + 1;
            start = i;
        } else {
            i += 1;
        }
    }
    let ghost old_r = r@;
    assert(pieces_from(s@, c, n, start as nat) == seq![
        s@.subrange(start as int, len as int),
    ]);
    r.push((start, len));
    assert(spans(s@, r@) =~= spans(s@, old_r).push(s@.subrange(start as int, len as int)));
    assert(spans(s@, old_r) + seq![s@.subrange(start as int, len as int)] =~= spans(s@, r@));
    r
}

} // verus!

verus! {

/// Whether `c` has the Unicode `White_Space` property, which is what
/// `char::is_whitespace` answers: the ASCII controls U+0009 to U+000D, the
/// space, U+0085, U+00A0, U+1680, U+2000 to U+200A, U+2028, U+2029, U+202F,
/// U+205F and U+3000.
pub open spec fn char_is_whitespace(c: char) -> bool {
    let v = c as u32;
    ||| 0x09 <= v <= 0x0D
    ||| v == 0x20
    ||| v == 0x85
    ||| v == 0xA0
    ||| v == 0x1680
    ||| 0x2000 <= v <= 0x200A
    ||| v == 0x2028
    ||| v == 0x2029
    ||| v == 0x202F
    ||| v == 0x205F
    ||| v == 0x3000
}

/// Whether `c` is whitespace.
pub fn is_whitespace(c: char) -> (b: bool)
    ensures
        b == char_is_whitespace(c),
{
    let v = c as u32;
    (0x09 <= v && v <= 0x0D) || v == 0x20 || v == 0x85 || v == 0xA0 || v == 0x1680 || (0x2000
        <= v && v <= 0x200A) || v == 0x2028 || v == 0x2029 || v == 0x202F || v == 0x205F || v
        == 0x3000
}

/// Calls `String::push`, which appends `c` to `s`.
#[verifier::external_body]
pub(crate) fn push_char(s: &mut String, c: char)
    ensures
        final(s)@ == old(s)@.push(c),
{
    s.push(c)
}

/// Every character of `s` is whitespace (so is the empty text).
pub open spec fn is_blank(s: Seq<char>) -> bool {
    forall|k: int| 0 <= k < s.len() ==> char_is_whitespace(#[trigger] s[k])
}

/// `s` without its leading whitespace.
pub open spec fn trim_start(s: Seq<char>) -> Seq<char>
    decreases s.len(),
{
    if s.len() > 0 && char_is_whitespace(s[0]) {
        trim_start(s.drop_first())
    } else {
        s
    }
}

/// `s` without its trailing whitespace.
pub open spec fn trim_end(s: Seq<char>) -> Seq<char>
    decreases s.len(),
{
    if s.len() > 0 && char_is_whitespace(s.last()) {
        trim_end(s.drop_last())
    } else {
        s
    }
}

/// `s` without leading and trailing whitespace, as `str::trim` gives it.
pub open spec fn trim(s: Seq<char>) -> Seq<char> {
    trim_end(trim_start(s))
}

pub proof fn lemma_trim_start_skip(t: Seq<char>, i: int)
    requires
        0 <= i <= t.len(),
        forall|k: int| 0 <= k < i ==> char_is_whitespace(#[trigger] t[k]),
    ensures
        trim_start(t) == trim_start(t.skip(i)),
    decreases i,
{
    if i == 0 {
        assert(t.skip(0) =~= t);
    } else {
        assert(char_is_whitespace(t[0]));
        let u = t.drop_first();
        assert forall|k: int| 0 <= k < i - 1 implies char_is_whitespace(#[trigger] u[k]) by {
            assert(u[k] == t[k + 1]);
        }
        lemma_trim_start_skip(u, i - 1);
        assert(u.skip(i - 1) =~= t.skip(i));
    }
}

proof fn lemma_trim_end_take(t: Seq<char>, j: int)
    requires
        0 <= j <= t.len(),
        forall|k: int| j <= k < t.len() ==> char_is_whitespace(#[trigger] t[k]),
    ensures
        trim_end(t) == trim_end(t.take(j)),
    decreases t.len() - j,
{
    if j == t.len() {
        assert(t.take(j) =~= t);
    } else {
        assert(char_is_whitespace(t.last()));
        let u = t.drop_last();
        assert forall|k: int| j <= k < u.len() implies char_is_whitespace(#[trigger] u[k]) by {
            assert(u[k] == t[k]);
        }
        lemma_trim_end_take(u, j);
        assert(u.take(j) =~= t.take(j));
    }
}

/// The text of `s[a..b]`.
pub fn string_of(s: &Vec<char>, a: usize, b: usize) -> (r: String)
    requires
        a <= b <= s@.len(),
    ensures
        r@ == s@.subrange(a as int, b as int),
{
    let mut r = String::new();
    let mut k = a;
    while k < b
        invariant
            a <= k <= b <= s@.len(),
            r@ == s@.subrange(a as int, k as int),
        decreases b - k,
    {
        push_char(&mut r, s[k]);
        assert(s@.subrange(a as int, k + 1) =~= s@.subrange(a as int, k as int).push(s@[k as int]));
        k += 1;
    }
    r
}

/// Whether `s[a..b]` is blank.
pub fn span_is_blank(s: &Vec<char>, a: usize, b: usize) -> (r: bool)
    requires
        a <= b <= s@.len(),
    ensures
        r == is_blank(s@.subrange(a as int, b as int)),
{
    let ghost t = s@.subrange(a as int, b as int);
    let mut k = a;
    while k < b
        invariant
            a <= k <= b <= s@.len(),
            t == s@.subrange(a as int, b as int),
            forall|j: int| 0 <= j < k - a ==> char_is_whitespace(#[trigger] t[j]),
        decreases b - k,
    {
        if !is_whitespace(s[k]) {
            assert(t[k - a] == s@[k as int]);
            return false;
        }
        assert(t[k - a] == s@[k as int]);
        k += 1;
    }
    true
}

/// The span of `s[a..b]` left once leading and trailing whitespace is cut.
pub fn trim_span(s: &Vec<char>, a: usize, b: usize) -> (r: (usize, usize))
    requires
        a <= b <= s@.len(),
    ensures
        a <= r.0 <= r.1 <= b,
        s@.subrange(r.0 as int, r.1 as int) == trim(s@.subrange(a as int, b as int)),
{
    let ghost t = s@.subrange(a as int, b as int);
    let mut i = a;
    while i < b && is_whitespace(s[i])
        invariant
            a <= i <= b <= s@.len(),
            t == s@.subrange(a as int, b as int),
            forall|k: int| 0 <= k < i - a ==> char_is_whitespace(#[trigger] t[k]),
        decreases b - i,
    {
        assert(t[i - a] == s@[i as int]);
        i += 1;
    }
    proof {
        lemma_trim_start_skip(t, i - a);
        let u = t.skip(i - a);
        if u.len() > 0 {
            assert(u[0] == s@[i as int]);
        }
        assert(trim_start(u) == u);
    }
    let ghost u = t.skip(i - a);
    assert(u =~= s@.subrange(i as int, b as int));
    let mut j = b;
    while j > i && is_whitespace(s[j - 1])
        invariant
            a <= i <= j <= b <= s@.len(),
            u == s@.subrange(i as int, b as int),
            forall|k: int| j - i <= k < u.len() ==> char_is_whitespace(#[trigger] u[k]),
        decreases j - i,
    {
        assert(u[j - 1 - i] == s@[j - 1]);
        j -= 1;
    }
    proof {
        lemma_trim_end_take(u, j - i);
        let v = u.take(j - i);
        if v.len() > 0 {
            assert(v.last() == s@[j - 1]);
        }
        assert(trim_end(v) == v);
        assert(v =~= s@.subrange(i as int, j as int));
    }
    (i, j)
}

} // verus!

verus! {

/// `x` without one carriage return at its end.
pub open spec fn strip_cr(x: Seq<char>) -> Seq<char> {
    if x.len() > 0 && x.last() == '\r' {
        x.drop_last()
    } else {
        x
    }
}

/// The lines of `s`, as `str::lines` yields them: `s` split at each `\n`;
/// a `\r` right before a `\n` belongs to the line ending; a final line
/// ending is optional, so an empty last piece is no line.
pub open spec fn lines(s: Seq<char>) -> Seq<Seq<char>> {
    let p = split_runs(s, '\n', 1);
    let init = Seq::new((p.len() - 1) as nat, |k: int| strip_cr(p[k]));
    if p.last().len() == 0 {
        init
    } else {
        init.push(p.last())
    }
}

/// The pieces of `ps` that are not blank, in order.
pub open spec fn without_blank(ps: Seq<Seq<char>>) -> Seq<Seq<char>>
    decreases ps.len(),
{
    if ps.len() == 0 {
        seq![]
    } else if is_blank(ps.last()) {
        without_blank(ps.drop_last())
    } else {
        without_blank(ps.drop_last()).push(ps.last())
    }
}

/// Adding a span that lies inside `s` keeps all spans inside `s`.
pub proof fn lemma_spans_valid_push(s: Seq<char>, r: Seq<(usize, usize)>, x: (usize, usize))
    requires
        spans_valid(s, r),
        x.0 <= x.1 <= s.len(),
    ensures
        spans_valid(s, r.push(x)),
{
    assert forall|k: int| 0 <= k < r.push(x).len() implies #[trigger] r.push(x)[k].0 <= r.push(
        x,
    )[k].1 <= s.len() by {
        if k < r.len() {
            assert(r.push(x)[k] == r[k]);
        }
    }
}

/// The spans of the lines of `s`.
pub fn line_spans(s: &Vec<char>) -> (r: Vec<(usize, usize)>)
    ensures
        spans_valid(s@, r@),
        spans(s@, r@) == lines(s@),
{
    let p = run_pieces(s, '\n', 0);
    let ghost ps = split_runs(s@, '\n', 1);
    assert(ps.len() >= 1);
    let last = p.len() - 1;
    let mut r: Vec<(usize, usize)> = Vec::new();
    let mut k: usize = 0;
    while k < last
        invariant
            last + 1 == p@.len(),
            spans_valid(s@, p@),
            spans(s@, p@) == ps,
            k <= last,
            spans_valid(s@, r@),
            spans(s@, r@) =~= Seq::new(k as nat, |j: int| strip_cr(ps[j])),
        decreases last - k,
    {
        let (a, b) = p[k];
        assert(ps[k as int] == s@.subrange(a as int, b as int));
        let ghost old_r = r@;
        if b > a && s[b - 1] == '\r' {
            r.push((a, b - 1));
            proof {
                lemma_spans_valid_push(s@, old_r, (a, (b - 1) as usize));
            }
            assert(s@.subrange(a as int, b - 1) =~= strip_cr(ps[k as int]));
        } else {
            r.push((a, b));
            proof {
                lemma_spans_valid_push(s@, old_r, (a, b));
            }
        }
        assert(spans(s@, r@) =~= spans(s@, old_r).push(strip_cr(ps[k as int])));
        k += 1;
    }
    let (a, b) = p[last];
    assert(ps.last() == s@.subrange(a as int, b as int));
    if b > a {
        let ghost old_r = r@;
        r.push((a, b));
        proof {
            lemma_spans_valid_push(s@, old_r, (a, b));
        }
        assert(spans(s@, r@) =~= spans(s@, old_r).push(ps.last()));
    }
    r
}

} // verus!

verus! {

/// The span of `s[a..b]` left once its leading whitespace is cut.
pub fn trim_start_span(s: &Vec<char>, a: usize, b: usize) -> (r: usize)
    requires
        a <= b <= s@.len(),
    ensures
        a <= r <= b,
        s@.subrange(r as int, b as int) == trim_start(s@.subrange(a as int, b as int)),
{
    let ghost t = s@.subrange(a as int, b as int);
    let mut i = a;
    while i < b && is_whitespace(s[i])
        invariant
            a <= i <= b <= s@.len(),
            t == s@.subrange(a as int, b as int),
            forall|k: int| 0 <= k < i - a ==> char_is_whitespace(#[trigger] t[k]),
        decreases b - i,
    {
        assert(t[i - a] == s@[i as int]);
        i += 1;
    }
    proof {
        lemma_trim_start_skip(t, i - a);
        let u = t.skip(i - a);
        if u.len() > 0 {
            assert(u[0] == s@[i as int]);
        }
        assert(trim_start(u) == u);
        assert(u =~= s@.subrange(i as int, b as int));
    }
    i
}

/// The position of the first whitespace character of `s` at or after `i`.
pub open spec fn first_whitespace(s: Seq<char>, i: nat) -> Option<nat>
    decreases s.len() - i,
{
    if i >= s.len() {
        None
    } else if char_is_whitespace(s[i as int]) {
        Some(i)
    } else {
        first_whitespace(s, i + 1)
    }
}

/// The position in `s` of the first whitespace character of `s[a..b]`.
pub fn first_whitespace_span(s: &Vec<char>, a: usize, b: usize) -> (r: Option<usize>)
    requires
        a <= b <= s@.len(),
    ensures
        r == (match first_whitespace(s@.subrange(a as int, b as int), 0) {
            Some(k) => Some((a + k) as usize),
            None => None::<usize>,
        }),
{
    let ghost t = s@.subrange(a as int, b as int);
    let mut i = a;
    while i < b
        invariant
            a <= i <= b <= s@.len(),
            t == s@.subrange(a as int, b as int),
            first_whitespace(t, 0) == first_whitespace(t, (i - a) as nat),
        decreases b - i,
    {
        assert(t[i - a] == s@[i as int]);
        if is_whitespace(s[i]) {
            return Some(i);
        }
        i += 1;
    }
    None
}

/// Whether `c` is an ASCII decimal digit.
pub open spec fn is_digit(c: char) -> bool {
    48 <= (c as u32) <= 57
}

/// The number that the decimal digits `s` write.
pub open spec fn digits_value(s: Seq<char>) -> nat
    decreases s.len(),
{
    if s.len() == 0 {
        0
    } else {
        digits_value(s.drop_last()) * 10 + ((s.last() as u32) - 48) as nat
    }
}

/// `s` without one leading `+`.
pub open spec fn unsigned_digits(s: Seq<char>) -> Seq<char> {
    if s.len() > 0 && s[0] == '+' {
        s.drop_first()
    } else {
        s
    }
}

/// Every character of `d` is an ASCII digit.
pub open spec fn all_digits(d: Seq<char>) -> bool {
    forall|k: int| 0 <= k < d.len() ==> is_digit(#[trigger] d[k])
}

/// `s` read as a `u32`, as `str::parse::<u32>` reads it: an optional `+`,
/// then one or more ASCII digits, and a value that fits.
pub open spec fn parse_u32(s: Seq<char>) -> Option<u32> {
    let d = unsigned_digits(s);
    if d.len() > 0 && all_digits(d) && digits_value(d) <= u32::MAX {
        Some(digits_value(d) as u32)
    } else {
        None
    }
}

/// `s[a..b]` read as a `u32`.
pub fn parse_u32_span(s: &Vec<char>, a: usize, b: usize) -> (r: Option<u32>)
    requires
        a <= b <= s@.len(),
    ensures
        r == parse_u32(s@.subrange(a as int, b as int)),
{
    let ghost t = s@.subrange(a as int, b as int);
    let mut i = a;
    if i < b && s[i] == '+' {
        i += 1;
    }
    let ghost d = s@.subrange(i as int, b as int);
    assert(d =~= unsigned_digits(t));
    if i == b {
        return None;
    }
    let mut acc: u64 = 0;
    let mut over = false;
    let mut k = i;
    while k < b
        invariant
            a <= i < b <= s@.len(),
            i <= k <= b,
            d == s@.subrange(i as int, b as int),
            t == s@.subrange(a as int, b as int),
            d == unsigned_digits(t),
            forall|j: int| 0 <= j < k - i ==> is_digit(#[trigger] d[j]),
            over ==> digits_value(d.take(k - i)) > u32::MAX,
            !over ==> acc == digits_value(d.take(k - i)) && acc <= u32::MAX,
        decreases b - k,
    {
        let c = s[k];
        assert(d[k - i] == c);
        if !(48 <= (c as u32) && (c as u32) <= 57) {
            assert(!is_digit(d[k - i]));
            return None;
        }
        assert(d.take(k - i + 1).drop_last() =~= d.take(k - i));
        assert(d.take(k - i + 1).last() == c);
        if !over {
            let v = acc * 10 + ((c as u32) - 48) as u64;
            if v > 0xFFFF_FFFF {
                over = true;
            } else {
                acc = v;
            }
        }
        k += 1;
    }
    assert(d.take(k - i) =~= d);
    if over {
        None
    } else {
        Some(acc as u32)
    }
}

} // verus!

verus! {

/// The characters of `s[a..b]`.
pub fn chars_in(s: &Vec<char>, a: usize, b: usize) -> (r: Vec<char>)
    requires
        a <= b <= s@.len(),
    ensures
        r@ == s@.subrange(a as int, b as int),
{
    let mut r: Vec<char> = Vec::new();
    let mut k = a;
    while k < b
        invariant
            a <= k <= b <= s@.len(),
            r@ == s@.subrange(a as int, k as int),
        decreases b - k,
    {
        r.push(s[k]);
        assert(s@.subrange(a as int, k + 1) =~= s@.subrange(a as int, k as int).push(s@[k as int]));
        k += 1;
    }
    r
}

/// Whether `s[a..b]` is a prefix of `x`.
pub fn span_is_prefix_of(s: &Vec<char>, a: usize, b: usize, x: &Vec<char>) -> (r: bool)
    requires
        a <= b <= s@.len(),
    ensures
        r == (b - a <= x@.len() && x@.take(b - a) == s@.subrange(a as int, b as int)),
{
    if b - a > x.len() {
        return false;
    }
    let mut k: usize = 0;
    while k < b - a
        invariant
            a <= b <= s@.len(),
            b - a <= x@.len(),
            k <= b - a,
            forall|j: int| 0 <= j < k ==> x@[j] == s@[a + j],
        decreases b - a - k,
    {
        if x[k] != s[a + k] {
            assert(x@.take(b - a)[k as int] != s@.subrange(a as int, b as int)[k as int]);
            return false;
        }
        k += 1;
    }
    assert(x@.take(b - a) =~= s@.subrange(a as int, b as int));
    true
}

/// The number of bytes of the UTF-8 encoding of `s`.
pub open spec fn utf8_len(s: Seq<char>) -> nat {
    vstd::utf8::encode_utf8(s).len()
}

proof fn lemma_utf8_len_step(u: Seq<char>, w: nat)
    requires
        u.len() > 0,
        w == (if (u[0] as u32) <= 0x7F {
            1nat
        } else if (u[0] as u32) <= 0x7FF {
            2nat
        } else if (u[0] as u32) <= 0xFFFF {
            3nat
        } else {
            4nat
        }),
    ensures
        utf8_len(u) == w + utf8_len(u.drop_first()),
{
    let v = u[0] as u32;
    vstd::utf8::char_is_scalar(u[0]);
    assert(vstd::utf8::is_scalar(v));
    assert(vstd::utf8::encode_scalar(v).len() == w);
}

/// Whether the UTF-8 encoding of `s[a..b]` takes exactly 15 bytes.
pub fn utf8_len_is_15(s: &Vec<char>, a: usize, b: usize) -> (r: bool)
    requires
        a <= b <= s@.len(),
    ensures
        r == (utf8_len(s@.subrange(a as int, b as int)) == 15),
{
    let ghost t = s@.subrange(a as int, b as int);
    let mut total: usize = 0;
    let mut k = a;
    assert(t.skip(0) =~= t);
    while k < b
        invariant
            a <= k <= b <= s@.len(),
            t == s@.subrange(a as int, b as int),
            total <= 15,
            total + utf8_len(t.skip(k - a)) == utf8_len(t),
        decreases b - k,
    {
        let v = s[k] as u32;
        let w: usize = if v <= 0x7F {
            1
        } else if v <= 0x7FF {
            2
        } else if v <= 0xFFFF {
            3
        } else {
            4
        };
        proof {
            let u = t.skip(k - a);
            assert(u[0] == s@[k as int]);
            lemma_utf8_len_step(u, w as nat);
            assert(u.drop_first() =~= t.skip(k + 1 - a));
        }
        if total + w > 15 {
            return false;
        }
        total = total + w;
        k += 1;
    }
    assert(t.skip(b - a).len() == 0);
    assert(utf8_len(t.skip(b - a)) == 0);
    total == 15
}

} // verus!

verus! {

pub proof fn lemma_first_whitespace_found(s: Seq<char>, i: nat)
    ensures
        first_whitespace(s, i) matches Some(k) ==> i <= k < s.len() && char_is_whitespace(
            s[k as int],
        ),
    decreases s.len() - i,
{
    if i < s.len() && !char_is_whitespace(s[i as int]) {
        lemma_first_whitespace_found(s, i + 1);
    }
}

} // verus!

verus! {

/// `n` copies of `c`.
pub open spec fn repeat_char(c: char, n: nat) -> Seq<char> {
    Seq::new(n, |_i: int| c)
}

/// The pieces `ps` put back together with `sep` between each two.
pub open spec fn join(ps: Seq<Seq<char>>, sep: Seq<char>) -> Seq<char>
    decreases ps.len(),
{
    if ps.len() == 0 {
        seq![]
    } else if ps.len() == 1 {
        ps[0]
    } else {
        ps[0] + sep + join(ps.drop_first(), sep)
    }
}

proof fn lemma_next_run_leftmost(s: Seq<char>, c: char, n: nat, i: nat)
    ensures
        match next_run(s, c, n, i) {
            Some(j) => forall|k: int| i <= k < j ==> !run_at(s, c, n, k),
            None => forall|k: int| i <= k ==> !run_at(s, c, n, k),
        },
    decreases s.len() - i,
{
    if i + n <= s.len() && !run_at(s, c, n, i as int) {
        lemma_next_run_leftmost(s, c, n, i + 1);
    }
}

proof fn lemma_pieces_from_nonempty(s: Seq<char>, c: char, n: nat, start: nat)
    requires
        n >= 1,
        start <= s.len(),
    ensures
        pieces_from(s, c, n, start).len() >= 1,
{
}

proof fn lemma_join_pieces_from(s: Seq<char>, c: char, n: nat, start: nat)
    requires
        n >= 1,
        start <= s.len(),
    ensures
        join(pieces_from(s, c, n, start), repeat_char(c, n)) == s.subrange(
            start as int,
            s.len() as int,
        ),
    decreases s.len() - start,
{
    lemma_next_run_found(s, c, n, start);
    match next_run(s, c, n, start) {
        None => {},
        Some(j) => {
            let ps = pieces_from(s, c, n, start);
            let rest = pieces_from(s, c, n, j + n);
            lemma_join_pieces_from(s, c, n, j + n);
            lemma_pieces_from_nonempty(s, c, n, j + n);
            assert(ps.drop_first() =~= rest);
            assert(s.subrange(j as int, (j + n) as int) =~= repeat_char(c, n));
            assert(s.subrange(start as int, s.len() as int) =~= s.subrange(start as int, j as int)
                + s.subrange(j as int, (j + n) as int) + s.subrange((j + n) as int, s.len() as int));
        },
    }
}

/// Splitting at runs of `n` copies of `c` loses nothing but the runs: the
/// pieces joined with the run between each two give `s` back.
pub proof fn lemma_split_join(s: Seq<char>, c: char, n: nat)
    requires
        n >= 1,
    ensures
        join(split_runs(s, c, n), repeat_char(c, n)) == s,
{
    lemma_join_pieces_from(s, c, n, 0);
    assert(s.subrange(0, s.len() as int) =~= s);
}

proof fn lemma_pieces_from_hold_no_run(s: Seq<char>, c: char, n: nat, start: nat)
    requires
        n >= 1,
        start <= s.len(),
    ensures
        forall|k: int, i: int|
            0 <= k < pieces_from(s, c, n, start).len() ==> !#[trigger] run_at(pieces_from(s, c, n, start)[k],
                c,
                n,
                i,
            ),
    decreases s.len() - start,
{
    let ps = pieces_from(s, c, n, start);
    lemma_next_run_found(s, c, n, start);
    lemma_next_run_leftmost(s, c, n, start);
    match next_run(s, c, n, start) {
        None => {
            assert forall|k: int, i: int| 0 <= k < ps.len() implies !#[trigger] run_at(ps[k],
                c,
                n,
                i,
            ) by {
                let a = ps[k];
                if run_at(a, c, n, i) {
                    assert forall|m: int| start + i <= m < start + i + n implies s[m] == c by {
                        assert(a[m - start] == s[m]);
                    }
                    assert(run_at(s, c, n, start + i));
                }
            }
        },
        Some(j) => {
            let rest = pieces_from(s, c, n, j + n);
            lemma_pieces_from_hold_no_run(s, c, n, j + n);
            assert forall|k: int, i: int| 0 <= k < ps.len() implies !#[trigger] run_at(ps[k],
                c,
                n,
                i,
            ) by {
                if k == 0 {
                    let a = ps[0];
                    assert(a == s.subrange(start as int, j as int));
                    if run_at(a, c, n, i) {
                        assert forall|m: int| start + i <= m < start + i + n implies s[m] == c by {
                            assert(a[m - start] == s[m]);
                        }
                        assert(run_at(s, c, n, start + i));
                    }
                } else {
                    assert(ps[k] == rest[k - 1]);
                }
            }
        },
    }
}

/// No piece of a split holds the run it was split at: each run is cut at
/// the leftmost place it stands.
pub proof fn lemma_split_pieces_hold_no_run(s: Seq<char>, c: char, n: nat)
    requires
        n >= 1,
    ensures
        forall|k: int, i: int|
            0 <= k < split_runs(s, c, n).len() ==> !#[trigger] run_at(split_runs(s, c, n)[k],
                c,
                n,
                i,
            ),
{
    lemma_pieces_from_hold_no_run(s, c, n, 0);
}

proof fn lemma_next_run_absent(s: Seq<char>, c: char, n: nat, i: nat)
    requires
        forall|k: int| !run_at(s, c, n, k),
    ensures
        next_run(s, c, n, i) is None,
    decreases s.len() - i,
{
    if i + n <= s.len() {
        assert(!run_at(s, c, n, i as int));
        lemma_next_run_absent(s, c, n, i + 1);
    }
}

/// Text in which `n` copies of `c` never stand in a row is one piece.
pub proof fn lemma_split_without_run(s: Seq<char>, c: char, n: nat)
    requires
        n >= 1,
        forall|k: int| !run_at(s, c, n, k),
    ensures
        split_runs(s, c, n) == seq![s],
{
    lemma_next_run_absent(s, c, n, 0);
    assert(s.subrange(0, s.len() as int) =~= s);
}

/// No line holds a newline.
pub proof fn lemma_lines_hold_no_newline(s: Seq<char>)
    ensures
        forall|k: int, i: int|
            0 <= k < lines(s).len() && 0 <= i < lines(s)[k].len() ==> #[trigger] lines(s)[k][i]
                != '\n',
{
    let p = split_runs(s, '\n', 1);
    lemma_split_pieces_hold_no_run(s, '\n', 1);
    lemma_pieces_from_nonempty(s, '\n', 1, 0);
    assert forall|k: int, i: int|
        0 <= k < lines(s).len() && 0 <= i < lines(s)[k].len() implies #[trigger] lines(s)[k][i]
        != '\n' by {
        let piece = p[k];
        assert(!run_at(piece, '\n', 1, i));
        assert(lines(s)[k][i] == piece[i]);
    }
}

/// The pieces that dropping the blank ones keeps are the non-blank pieces of
/// `ps`, none of them blank.
pub proof fn lemma_without_blank_kept(ps: Seq<Seq<char>>)
    ensures
        forall|k: int|
            0 <= k < without_blank(ps).len() ==> !is_blank(#[trigger] without_blank(ps)[k])
                && ps.contains(without_blank(ps)[k]),
    decreases ps.len(),
{
    if ps.len() > 0 {
        let rest = ps.drop_last();
        lemma_without_blank_kept(rest);
        assert forall|k: int| 0 <= k < without_blank(ps).len() implies !is_blank(
            #[trigger] without_blank(ps)[k],
        ) && ps.contains(without_blank(ps)[k]) by {
            if k < without_blank(rest).len() {
                let x = without_blank(rest)[k];
                assert(without_blank(ps)[k] == x);
                let j = choose|j: int| 0 <= j < rest.len() && rest[j] == x;
                assert(ps[j] == x);
            } else {
                assert(without_blank(ps)[k] == ps.last());
                assert(ps[ps.len() - 1] == ps.last());
            }
        }
    }
}

proof fn lemma_trim_start_shape(s: Seq<char>)
    ensures
        trim_start(s).len() <= s.len(),
        trim_start(s) == s.skip(s.len() - trim_start(s).len()),
        trim_start(s).len() > 0 ==> !char_is_whitespace(trim_start(s)[0]),
        trim_start(s).len() == 0 ==> is_blank(s),
    decreases s.len(),
{
    if s.len() > 0 && char_is_whitespace(s[0]) {
        let u = s.drop_first();
        lemma_trim_start_shape(u);
        assert(u.skip(u.len() - trim_start(u).len()) =~= s.skip(s.len() - trim_start(u).len()));
        if trim_start(u).len() == 0 {
            assert forall|k: int| 0 <= k < s.len() implies char_is_whitespace(#[trigger] s[k]) by {
                if k > 0 {
                    assert(s[k] == u[k - 1]);
                }
            }
        }
    } else {
        assert(s.skip(0) =~= s);
    }
}

proof fn lemma_trim_end_shape(s: Seq<char>)
    ensures
        trim_end(s).len() <= s.len(),
        trim_end(s) == s.take(trim_end(s).len() as int),
        trim_end(s).len() > 0 ==> !char_is_whitespace(trim_end(s).last()),
        trim_end(s).len() == 0 ==> is_blank(s),
    decreases s.len(),
{
    if s.len() > 0 && char_is_whitespace(s.last()) {
        let u = s.drop_last();
        lemma_trim_end_shape(u);
        assert(u.take(trim_end(u).len() as int) =~= s.take(trim_end(u).len() as int));
        if trim_end(u).len() == 0 {
            assert forall|k: int| 0 <= k < s.len() implies char_is_whitespace(#[trigger] s[k]) by {
                if k < s.len() - 1 {
                    assert(s[k] == u[k]);
                }
            }
        }
    } else {
        assert(s.take(s.len() as int) =~= s);
    }
}

proof fn lemma_trim_start_of_blank(s: Seq<char>)
    requires
        is_blank(s),
    ensures
        trim_start(s).len() == 0,
    decreases s.len(),
{
    if s.len() > 0 {
        let u = s.drop_first();
        assert forall|k: int| 0 <= k < u.len() implies char_is_whitespace(#[trigger] u[k]) by {
            assert(u[k] == s[k + 1]);
        }
        lemma_trim_start_of_blank(u);
    }
}

/// Trimming leaves the text between the first and the last character that is
/// not whitespace, and leaves nothing exactly when the text is blank.
pub proof fn lemma_trim_shape(s: Seq<char>)
    ensures
        trim(s).len() == 0 <==> is_blank(s),
        trim(s).len() > 0 ==> !char_is_whitespace(trim(s)[0]) && !char_is_whitespace(
            trim(s).last(),
        ),
        exists|a: int, b: int| 0 <= a <= b <= s.len() && trim(s) == s.subrange(a, b),
{
    let ts = trim_start(s);
    lemma_trim_start_shape(s);
    lemma_trim_end_shape(ts);
    let a = s.len() - ts.len();
    let b = a + trim(s).len();
    assert(trim(s) =~= s.subrange(a, b));
    if is_blank(s) {
        lemma_trim_start_of_blank(s);
    }
    if trim(s).len() == 0 && ts.len() > 0 {
        assert(is_blank(ts));
        assert(char_is_whitespace(ts[0]));
    }
    if trim(s).len() > 0 {
        assert(trim(s)[0] == ts[0]);
    }
}

} // verus!

verus! {

/// Joining one more piece adds the separator and the piece at the end.
pub proof fn lemma_join_push(ps: Seq<Seq<char>>, x: Seq<char>, sep: Seq<char>)
    requires
        ps.len() >= 1,
    ensures
        join(ps.push(x), sep) == join(ps, sep) + sep + x,
    decreases ps.len(),
{
    if ps.len() == 1 {
        assert(ps.push(x).drop_first() =~= seq![x]);
        assert(join(seq![x], sep) == x);
        assert(ps.push(x)[0] == ps[0]);
        assert(join(ps, sep) == ps[0]);
        assert(join(ps.push(x), sep) == ps[0] + sep + join(seq![x], sep));
    } else {
        let rest = ps.drop_first();
        lemma_join_push(rest, x, sep);
        assert(ps.push(x).drop_first() =~= rest.push(x));
        assert(ps.push(x)[0] == ps[0]);
        assert(join(ps.push(x), sep) == ps[0] + sep + join(rest.push(x), sep));
        assert(join(ps.push(x), sep) =~= join(ps, sep) + sep + x);
    }
}

/// Every newline of `out` is followed by `head`.
pub open spec fn newlines_followed_by(out: Seq<char>, head: Seq<char>) -> bool {
    forall|i: int|
        0 <= i < out.len() && #[trigger] out[i] == '\n' ==> i + 1 + head.len() <= out.len()
            && out.subrange(i + 1, i + 1 + head.len()) == head
}

proof fn lemma_newlines_followed_step(q0: Seq<char>, tail: Seq<char>, head: Seq<char>)
    requires
        forall|i: int| 0 <= i < q0.len() ==> q0[i] != '\n',
        head.len() <= tail.len(),
        tail.take(head.len() as int) == head,
        newlines_followed_by(tail, head),
    ensures
        newlines_followed_by(q0 + seq!['\n'] + tail, head),
{
    let out = q0 + seq!['\n'] + tail;
    assert forall|i: int| 0 <= i < out.len() && #[trigger] out[i] == '\n' implies i + 1
        + head.len() <= out.len() && out.subrange(i + 1, i + 1 + head.len()) == head by {
        if i < q0.len() {
            assert(out[i] == q0[i]);
        } else if i == q0.len() {
            assert(out.subrange(i + 1, i + 1 + head.len()) =~= tail.take(head.len() as int));
        } else {
            let j = i - q0.len() - 1;
            assert(out[i] == tail[j]);
            assert(out.subrange(i + 1, i + 1 + head.len()) =~= tail.subrange(
                j + 1,
                j + 1 + head.len(),
            ));
        }
    }
}

/// Pieces that hold no newline and each start with `head`, joined with
/// newlines, give a text that starts with `head` and in which every newline
/// is followed by `head`: every line of it starts with `head`.
pub proof fn lemma_join_lines_start_with(q: Seq<Seq<char>>, head: Seq<char>)
    requires
        q.len() >= 1,
        forall|k: int|
            0 <= k < q.len() ==> head.len() <= (#[trigger] q[k]).len() && q[k].take(
                head.len() as int,
            ) == head,
        forall|k: int, i: int| 0 <= k < q.len() && 0 <= i < q[k].len() ==> #[trigger] q[k][i] != '\n',
    ensures
        head.len() <= join(q, seq!['\n']).len(),
        join(q, seq!['\n']).take(head.len() as int) == head,
        newlines_followed_by(join(q, seq!['\n']), head),
    decreases q.len(),
{
    let out = join(q, seq!['\n']);
    let q0 = q[0];
    assert(head.len() <= q0.len() && q0.take(head.len() as int) == head);
    assert forall|i: int| 0 <= i < q0.len() implies q0[i] != '\n' by {
        assert(q[0][i] != '\n');
    }
    if q.len() == 1 {
        assert(out == q0);
    } else {
        let rest = q.drop_first();
        assert forall|k: int|
            0 <= k < rest.len() implies head.len() <= (#[trigger] rest[k]).len() && rest[k].take(
            head.len() as int,
        ) == head by {
            assert(rest[k] == q[k + 1]);
        }
        assert forall|k: int, i: int|
            0 <= k < rest.len() && 0 <= i < rest[k].len() implies #[trigger] rest[k][i] != '\n' by {
            assert(rest[k] == q[k + 1]);
            assert(q[k + 1][i] != '\n');
        }
        lemma_join_lines_start_with(rest, head);
        let tail = join(rest, seq!['\n']);
        assert(out == q0 + seq!['\n'] + tail);
        lemma_newlines_followed_step(q0, tail, head);
        assert(out.take(head.len() as int) =~= q0.take(head.len() as int));
    }
}

} // verus!

verus! {

proof fn lemma_run_at_shift(a: Seq<char>, b: Seq<char>, c: char, n: nat, i: int)
    requires
        0 <= i,
    ensures
        run_at(a + b, c, n, a.len() + i) == run_at(b, c, n, i),
{
    let s = a + b;
    if run_at(b, c, n, i) {
        assert forall|k: int| a.len() + i <= k < a.len() + i + n implies s[k] == c by {
            assert(s[k] == b[k - a.len()]);
        }
    }
    if run_at(s, c, n, a.len() + i) {
        assert forall|k: int| i <= k < i + n implies b[k] == c by {
            assert(s[k + a.len()] == b[k]);
        }
    }
}

proof fn lemma_next_run_shift(a: Seq<char>, b: Seq<char>, c: char, n: nat, i: nat)
    requires
        i <= b.len(),
    ensures
        match next_run(b, c, n, i) {
            Some(j) => next_run(a + b, c, n, a.len() + i) == Some((j + a.len()) as nat),
            None => next_run(a + b, c, n, a.len() + i) is None,
        },
    decreases b.len() - i,
{
    lemma_run_at_shift(a, b, c, n, i as int);
    if i + n <= b.len() && !run_at(b, c, n, i as int) {
        lemma_next_run_shift(a, b, c, n, i + 1);
        assert(a.len() + i + 1 == a.len() + (i + 1));
    }
}

proof fn lemma_pieces_shift(a: Seq<char>, b: Seq<char>, c: char, n: nat, i: nat)
    requires
        n >= 1,
        i <= b.len(),
    ensures
        pieces_from(a + b, c, n, (a.len() + i) as nat) == pieces_from(b, c, n, i),
    decreases b.len() - i,
{
    let s = a + b;
    let st = (a.len() + i) as nat;
    lemma_next_run_shift(a, b, c, n, i);
    lemma_next_run_found(b, c, n, i);
    match next_run(b, c, n, i) {
        None => {
            assert(s.subrange(st as int, s.len() as int) =~= b.subrange(i as int, b.len() as int));
        },
        Some(j) => {
            lemma_pieces_shift(a, b, c, n, j + n);
            assert(a.len() + (j + n) == (j + a.len()) + n);
            assert(s.subrange(st as int, (j + a.len()) as int) =~= b.subrange(i as int, j as int));
        },
    }
}

proof fn lemma_next_run_within(a: Seq<char>, b: Seq<char>, c: char, n: nat, i: nat)
    ensures
        next_run(a, c, n, i) matches Some(j) ==> next_run(a + b, c, n, i) == Some(j),
    decreases a.len() - i,
{
    lemma_next_run_found(a, c, n, i);
    if let Some(j) = next_run(a, c, n, i) {
        let s = a + b;
        if run_at(a, c, n, i as int) {
            assert forall|k: int| i <= k < i + n implies s[k] == c by {
                assert(s[k] == a[k]);
            }
        } else {
            assert(!run_at(s, c, n, i as int)) by {
                if run_at(s, c, n, i as int) {
                    assert forall|k: int| i <= k < i + n implies a[k] == c by {
                        assert(s[k] == a[k]);
                    }
                }
            }
            lemma_next_run_within(a, b, c, n, i + 1);
        }
    }
}

proof fn lemma_next_run_exists(s: Seq<char>, c: char, n: nat, i: nat, m: nat)
    requires
        i <= m,
        run_at(s, c, n, m as int),
    ensures
        next_run(s, c, n, i) is Some,
    decreases m - i,
{
    if !run_at(s, c, n, i as int) {
        lemma_next_run_exists(s, c, n, i + 1, m);
    }
}

proof fn lemma_pieces_concat(a: Seq<char>, b: Seq<char>, c: char, start: nat)
    requires
        a.len() >= 1,
        a.last() == c,
        start <= a.len(),
    ensures
        pieces_from(a + b, c, 1, start) == pieces_from(a, c, 1, start).drop_last() + pieces_from(
            b,
            c,
            1,
            0,
        ),
        pieces_from(a, c, 1, start).len() >= 1,
        pieces_from(a, c, 1, start).last().len() == 0,
    decreases a.len() - start,
{
    if start == a.len() {
        lemma_pieces_shift(a, b, c, 1, 0);
        assert(pieces_from(a, c, 1, start).drop_last() =~= Seq::<Seq<char>>::empty());
        assert(pieces_from(a + b, c, 1, start) =~= pieces_from(b, c, 1, 0));
    } else {
        assert(run_at(a, c, 1, a.len() - 1));
        lemma_next_run_exists(a, c, 1, start, (a.len() - 1) as nat);
        lemma_next_run_found(a, c, 1, start);
        lemma_next_run_within(a, b, c, 1, start);
        let j = next_run(a, c, 1, start)->0;
        lemma_pieces_concat(a, b, c, j + 1);
        let piece = a.subrange(start as int, j as int);
        let rest_a = pieces_from(a, c, 1, j + 1);
        assert((a + b).subrange(start as int, j as int) =~= piece);
        assert(pieces_from(a, c, 1, start) == seq![piece] + rest_a);
        assert((seq![piece] + rest_a).drop_last() =~= seq![piece] + rest_a.drop_last());
        assert(pieces_from(a + b, c, 1, start) =~= seq![piece] + (rest_a.drop_last()
            + pieces_from(b, c, 1, 0)));
    }
}

/// Lines of a text that is empty or ends with a newline do not run into what
/// follows: the lines of `a + b` are those of `a`, then those of `b`.
pub proof fn lemma_lines_concat(a: Seq<char>, b: Seq<char>)
    requires
        a.len() == 0 || a.last() == '\n',
    ensures
        lines(a + b) == lines(a) + lines(b),
{
    if a.len() == 0 {
        assert(a + b =~= b);
        assert(next_run(a, '\n', 1, 0) is None);
        assert(a.subrange(0, 0) =~= Seq::<char>::empty());
        assert(split_runs(a, '\n', 1) =~= seq![Seq::<char>::empty()]);
        assert(lines(a) =~= Seq::<Seq<char>>::empty());
        assert(lines(a) + lines(b) =~= lines(b));
    } else {
        lemma_pieces_concat(a, b, '\n', 0);
        let pa = split_runs(a, '\n', 1);
        let pb = split_runs(b, '\n', 1);
        let p = split_runs(a + b, '\n', 1);
        assert(pb.len() >= 1);
        assert(p == pa.drop_last() + pb);
        assert(p.last() == pb.last());
        let la = Seq::new((pa.len() - 1) as nat, |k: int| strip_cr(pa[k]));
        assert(lines(a) == la);
        let ib = Seq::new((pb.len() - 1) as nat, |k: int| strip_cr(pb[k]));
        let iab = Seq::new((p.len() - 1) as nat, |k: int| strip_cr(p[k]));
        assert(iab =~= la + ib) by {
            assert forall|k: int| 0 <= k < iab.len() implies iab[k] == (la + ib)[k] by {
                if k < la.len() {
                    assert(p[k] == pa[k]);
                } else {
                    assert(p[k] == pb[k - la.len()]);
                }
            }
        }
        if pb.last().len() == 0 {
            assert(lines(a + b) == iab);
            assert(lines(b) == ib);
        } else {
            assert(lines(a + b) == iab.push(p.last()));
            assert(lines(b) == ib.push(pb.last()));
            assert((la + ib).push(pb.last()) =~= la + ib.push(pb.last()));
        }
    }
}

} // verus!

verus! {

/// Dropping the blank pieces keeps every non-blank piece, in order, and
/// nothing else: it is `Seq::filter` with "not blank".
pub proof fn lemma_without_blank_is_filter(ps: Seq<Seq<char>>)
    ensures
        without_blank(ps) == ps.filter(|x: Seq<char>| !is_blank(x)),
    decreases ps.len(),
{
    reveal(Seq::filter);
    if ps.len() > 0 {
        lemma_without_blank_is_filter(ps.drop_last());
    }
}

} // verus!

verus! {

/// The first whitespace at or after `i` is at `m` when `s[m]` is whitespace
/// and nothing in `s[i..m]` is.
pub proof fn lemma_first_whitespace_at(s: Seq<char>, i: nat, m: nat)
    requires
        i <= m < s.len(),
        char_is_whitespace(s[m as int]),
        forall|k: int| i <= k < m ==> !char_is_whitespace(#[trigger] s[k]),
    ensures
        first_whitespace(s, i) == Some(m),
    decreases m - i,
{
    if i < m {
        lemma_first_whitespace_at(s, i + 1, m);
    }
}

/// After a text that ends with the separator `c`, splitting at `c` starts
/// afresh: the pieces of `a + b` are those of `a` but its last (empty) one,
/// then those of `b`.
pub proof fn lemma_split_concat(a: Seq<char>, b: Seq<char>, c: char)
    requires
        a.len() >= 1,
        a.last() == c,
    ensures
        split_runs(a + b, c, 1) == split_runs(a, c, 1).drop_last() + split_runs(b, c, 1),
        split_runs(a, c, 1).last().len() == 0,
{
    lemma_pieces_concat(a, b, c, 0);
}

} // verus!

verus! {

proof fn lemma_pieces_avoid(s: Seq<char>, c: char, n: nat, start: nat, x: char)
    requires
        n >= 1,
        start <= s.len(),
        forall|j: int| 0 <= j < s.len() ==> s[j] != x,
    ensures
        forall|k: int, i: int|
            0 <= k < pieces_from(s, c, n, start).len() && 0 <= i < pieces_from(
                s,
                c,
                n,
                start,
            )[k].len() ==> #[trigger] pieces_from(s, c, n, start)[k][i] != x,
    decreases s.len() - start,
{
    let ps = pieces_from(s, c, n, start);
    lemma_next_run_found(s, c, n, start);
    match next_run(s, c, n, start) {
        None => {
            assert forall|k: int, i: int| 0 <= k < ps.len() && 0 <= i < ps[k].len() implies #[trigger] ps[k][i]
                != x by {
                assert(ps[k][i] == s[start + i]);
            }
        },
        Some(j) => {
            lemma_pieces_avoid(s, c, n, j + n, x);
            let rest = pieces_from(s, c, n, j + n);
            assert forall|k: int, i: int| 0 <= k < ps.len() && 0 <= i < ps[k].len() implies #[trigger] ps[k][i]
                != x by {
                if k == 0 {
                    assert(ps[k][i] == s[start + i]);
                } else {
                    assert(ps[k] == rest[k - 1]);
                }
            }
        },
    }
}

/// Text without carriage returns is its lines joined with newlines, plus
/// the final newline when it ends with one: `lines` loses only the line
/// endings.
pub proof fn lemma_lines_rejoin(s: Seq<char>)
    requires
        forall|i: int| 0 <= i < s.len() ==> s[i] != '\r',
    ensures
        join(lines(s), seq!['\n']) + (if s.len() > 0 && s.last() == '\n' {
            seq!['\n']
        } else {
            Seq::<char>::empty()
        }) == s,
{
    let p = split_runs(s, '\n', 1);
    lemma_split_join(s, '\n', 1);
    assert(repeat_char('\n', 1) =~= seq!['\n']);
    lemma_pieces_from_nonempty(s, '\n', 1, 0);
    lemma_pieces_avoid(s, '\n', 1, 0, '\r');
    lemma_split_pieces_hold_no_run(s, '\n', 1);
    let init = Seq::new((p.len() - 1) as nat, |k: int| strip_cr(p[k]));
    assert(init =~= p.drop_last()) by {
        assert forall|k: int| 0 <= k < init.len() implies init[k] == p[k] by {
            if p[k].len() > 0 {
                assert(p[k][p[k].len() - 1] != '\r');
            }
        }
    }
    let last = p.last();
    if p.len() == 1 {
        assert(join(p, seq!['\n']) == p[0]);
        if last.len() == 0 {
            assert(lines(s) =~= Seq::<Seq<char>>::empty());
            assert(s.len() == 0);
        } else {
            assert(lines(s) =~= p);
            assert(s.last() == last[last.len() - 1]);
            assert(!run_at(p[0], '\n', 1, last.len() - 1));
        }
    } else {
        lemma_join_push(p.drop_last(), last, seq!['\n']);
        assert(p.drop_last().push(last) =~= p);
        if last.len() == 0 {
            assert(lines(s) =~= p.drop_last());
            assert(s == join(p.drop_last(), seq!['\n']) + seq!['\n'] + last);
            assert(s =~= join(p.drop_last(), seq!['\n']) + seq!['\n']);
        } else {
            assert(lines(s) =~= p);
            assert(s.last() == last[last.len() - 1]);
            assert(!run_at(p[p.len() - 1], '\n', 1, last.len() - 1));
            assert(s =~= join(p, seq!['\n']) + Seq::<char>::empty());
        }
    }
}

} // verus!

verus! {

proof fn lemma_pieces_from_cut_leftmost(s: Seq<char>, c: char, n: nat, start: nat)
    requires
        n >= 1,
        start <= s.len(),
    ensures
        forall|k: int|
            0 <= k < pieces_from(s, c, n, start).len() - 1 ==> (#[trigger] pieces_from(
                s,
                c,
                n,
                start,
            )[k]).len() == 0 || pieces_from(s, c, n, start)[k].last() != c,
    decreases s.len() - start,
{
    let ps = pieces_from(s, c, n, start);
    lemma_next_run_found(s, c, n, start);
    lemma_next_run_leftmost(s, c, n, start);
    if let Some(j) = next_run(s, c, n, start) {
        lemma_pieces_from_cut_leftmost(s, c, n, j + n);
        let rest = pieces_from(s, c, n, j + n);
        assert forall|k: int| 0 <= k < ps.len() - 1 implies (#[trigger] ps[k]).len() == 0
            || ps[k].last() != c by {
            if k == 0 {
                let a = ps[0];
                if a.len() > 0 && a.last() == c {
                    assert(s[j - 1] == c);
                    assert(run_at(s, c, n, j - 1));
                }
            } else {
                assert(ps[k] == rest[k - 1]);
            }
        }
    }
}

/// Each run is cut where it starts: no piece but the last ends with `c`, so
/// the copies of `c` left over from a longer run open the next piece.
/// Together with [`lemma_split_join`] and [`lemma_split_pieces_hold_no_run`]
/// this is what fixes the pieces.
pub proof fn lemma_split_cut_leftmost(s: Seq<char>, c: char, n: nat)
    requires
        n >= 1,
    ensures
        forall|k: int|
            0 <= k < split_runs(s, c, n).len() - 1 ==> (#[trigger] split_runs(s, c, n)[k]).len()
                == 0 || split_runs(s, c, n)[k].last() != c,
{
    lemma_pieces_from_cut_leftmost(s, c, n, 0);
}

} // verus!
