//! Text building and searching on characters.

use vstd::prelude::*;

verus! {

/// The numeral of the digit `d`, lower case above nine.
pub open spec fn digit(d: nat) -> char
    recommends
        d < 16,
{
    if d < 10 {
        (48 + d) as char
    } else {
        (87 + d) as char
    }
}

/// `n` written in `base`, most significant digit first, without leading zeros.
pub open spec fn numeral(n: nat, base: nat) -> Seq<char>
    recommends
        2 <= base <= 16,
    decreases n,
{
    if n < base || base < 2 {
        seq![digit(n)]
    } else {
        proof {
            vstd::arithmetic::div_mod::lemma_div_decreases(n as int, base as int);
        }
        numeral(n / base, base).push(digit(n % base))
    }
}

/// `n` in decimal.
pub open spec fn decimal(n: nat) -> Seq<char> {
    numeral(n, 10)
}

/// `n` in hexadecimal behind `0x`.
pub open spec fn hex(n: nat) -> Seq<char> {
    "0x"@ + numeral(n, 16)
}

/// The parts in order, with `sep` between each two neighbours.
pub open spec fn joined(parts: Seq<Seq<char>>, sep: Seq<char>) -> Seq<char>
    decreases parts.len(),
{
    if parts.len() == 0 {
        Seq::empty()
    } else if parts.len() == 1 {
        parts[0]
    } else {
        joined(parts.drop_last(), sep) + sep + parts.last()
    }
}

/// `part` stands in `whole` from place `i` on.
pub open spec fn stands_at(part: Seq<char>, whole: Seq<char>, i: int) -> bool {
    &&& 0 <= i <= whole.len() - part.len()
    &&& whole.subrange(i, i + part.len()) == part
}

/// `part` occurs in `whole` as a run of consecutive characters.
pub open spec fn occurs(part: Seq<char>, whole: Seq<char>) -> bool {
    exists|i: int| stands_at(part, whole, i)
}

/// `k` is where the first line of `s` is cut: its first line feed, or its end.
pub open spec fn is_line_cut(s: Seq<char>, k: int) -> bool {
    &&& 0 <= k <= s.len()
    &&& forall|i: int| 0 <= i < k ==> s[i] != '\n'
    &&& k < s.len() ==> s[k] == '\n'
}

/// The first line of `s`: what stands before its first line feed, less one
/// carriage return directly before that line feed. Without a line feed it is
/// all of `s`.
pub open spec fn first_line(s: Seq<char>) -> Seq<char> {
    let k = choose|k: int| is_line_cut(s, k);
    if k < s.len() && k > 0 && s[k - 1] == '\r' {
        s.take(k - 1)
    } else {
        s.take(k)
    }
}

/// `a` comes before `b`: at the first place where they differ `a` has ended or
/// has the smaller code point.
pub open spec fn before(a: Seq<char>, b: Seq<char>) -> bool
    decreases a.len(),
{
    if b.len() == 0 {
        false
    } else if a.len() == 0 {
        true
    } else if a[0] != b[0] {
        a[0] < b[0]
    } else {
        before(a.drop_first(), b.drop_first())
    }
}

fn digit_text(d: u64) -> (r: &'static str)
    requires
        d < 16,
    ensures
        r@ == seq![digit(d as nat)],
{
    proof {
        reveal_strlit("0");
        reveal_strlit("1");
        reveal_strlit("2");
        reveal_strlit("3");
        reveal_strlit("4");
        reveal_strlit("5");
        reveal_strlit("6");
        reveal_strlit("7");
        reveal_strlit("8");
        reveal_strlit("9");
        reveal_strlit("a");
        reveal_strlit("b");
        reveal_strlit("c");
        reveal_strlit("d");
        reveal_strlit("e");
        reveal_strlit("f");
    }
    match d {
        0 => "0",
        1 => "1",
        2 => "2",
        3 => "3",
        4 => "4",
        5 => "5",
        6 => "6",
        7 => "7",
        8 => "8",
        9 => "9",
        10 => "a",
        11 => "b",
        12 => "c",
        13 => "d",
        14 => "e",
        _ => "f",
    }
}

fn numeral_text(n: u64, base: u64) -> (r: String)
    requires
        2 <= base <= 16,
    ensures
        r@ == numeral(n as nat, base as nat),
    decreases n,
{
    if n < base {
        digit_text(n).to_owned()
    } else {
        proof {
            vstd::arithmetic::div_mod::lemma_div_decreases(n as int, base as int);
        }
        let mut r = numeral_text(n / base, base);
        r.append(digit_text(n % base));
        r
    }
}

/// Writes `n` in decimal.
pub fn decimal_text(n: u64) -> (r: String)
    ensures
        r@ == decimal(n as nat),
{
    numeral_text(n, 10)
}

/// Writes `n` in hexadecimal behind `0x`.
pub fn hex_text(n: u64) -> (r: String)
    ensures
        r@ == hex(n as nat),
{
    let mut r = "0x".to_owned();
    let digits = numeral_text(n, 16);
    r.append(digits.as_str());
    r
}

/// The characters of each text, in order.
pub open spec fn views(parts: Seq<String>) -> Seq<Seq<char>> {
    parts.map_values(|p: String| p@)
}

/// Joins the parts with `sep` between each two neighbours.
pub fn join(parts: &Vec<String>, sep: &str) -> (r: String)
    ensures
        r@ == joined(views(parts@), sep@),
{
    let mut r = String::new();
    let ghost all = views(parts@);
    for i in 0..parts.len()
        invariant
            all == views(parts@),
            r@ == joined(all.take(i as int), sep@),
    {
        if i > 0 {
            r.append(sep);
        }
        r.append(parts[i].as_str());
        proof {
            assert(all.take(i + 1).drop_last() == all.take(i as int));
            assert(all.take(i + 1).last() == parts@[i as int]@);
            if i == 0 {
                assert(r@ == all.take(1)[0]);
            }
        }
    }
    assert(all.take(parts@.len() as int) == all);
    r
}

/// The characters of `s`.
pub fn chars_of(s: &str) -> (r: Vec<char>)
    ensures
        r@ == s@,
{
    let mut r: Vec<char> = Vec::new();
    for c in it: s.chars()
        invariant
            it.seq() == s@,
            r@ == s@.take(it.index() as int),
    {
        r.push(c);
        assert(s@.take(it.index() + 1) == s@.take(it.index() as int).push(c));
    }
    assert(s@.take(s@.len() as int) == s@);
    r
}

/// Whether `p` stands in `w` from place `i` on.
fn starts_at(w: &Vec<char>, i: usize, p: &Vec<char>) -> (r: bool)
    requires
        i + p@.len() <= w@.len(),
    ensures
        r == stands_at(p@, w@, i as int),
{
    let ghost run = w@.subrange(i as int, i + p@.len());
    let plen: usize = p.len();
    let wlen: usize = w.len();
    let mut j: usize = 0;
    while j < plen
        invariant
            plen == p@.len(),
            wlen == w@.len(),
            i + plen <= wlen,
            run == w@.subrange(i as int, i + p@.len()),
            j <= plen,
            forall|k: int| 0 <= k < j ==> run[k] == p@[k],
        decreases plen - j,
    {
        if w[i + j] != p[j] {
            assert(run[j as int] != p@[j as int]);
            return false;
        }
        j += 1;
    }
    assert(run == p@);
    true
}

/// Whether `part` occurs in `whole`.
pub fn contains(whole: &str, part: &str) -> (r: bool)
    ensures
        r == occurs(part@, whole@),
        r <==> exists|head: Seq<char>, rest: Seq<char>|
            whole@ == #[trigger] (head + part@ + rest),
{
    proof {
        law_occurring_is_standing_between_two_texts(part@, whole@);
    }
    let w = chars_of(whole);
    let p = chars_of(part);
    if p.len() > w.len() {
        return false;
    }
    let slack: usize = w.len() - p.len();
    let mut i: usize = 0;
    loop
        invariant
            w@ == whole@,
            p@ == part@,
            slack == w@.len() - p@.len(),
            i <= slack,
            forall|k: int| 0 <= k < i ==> !stands_at(p@, w@, k),
        decreases slack - i,
    {
        proof {
            law_occurring_is_standing_between_two_texts(part@, whole@);
        }
        if starts_at(&w, i, &p) {
            return true;
        }
        if i == slack {
            return false;
        }
        i += 1;
    }
}

/// Two cuts of one text are the same cut.
proof fn lemma_line_cut_unique(s: Seq<char>, a: int, b: int)
    requires
        is_line_cut(s, a),
        is_line_cut(s, b),
    ensures
        a == b,
{
}

/// Cuts `s` down to its first line.
pub fn first_line_of(s: &str) -> (r: String)
    ensures
        r@ == first_line(s@),
        !s@.contains('\n') ==> r@ == s@,
        forall|head: Seq<char>, rest: Seq<char>|
            s@ == #[trigger] (head.push('\n') + rest) && !head.contains('\n') ==> r@ == (
            if head.len() > 0 && head.last() == '\r' {
                head.drop_last()
            } else {
                head
            }),
{
    proof {
        assert forall|head: Seq<char>, rest: Seq<char>|
            s@ == #[trigger] (head.push('\n') + rest) && !head.contains('\n') implies first_line(s@)
            == (if head.len() > 0 && head.last() == '\r' {
            head.drop_last()
        } else {
            head
        }) by {
            law_first_line_ends_at_the_first_line_feed(head, rest);
        }
        if !s@.contains('\n') {
            law_one_line_is_its_own_first_line(s@);
        }
    }
    let c = chars_of(s);
    let mut k: usize = 0;
    while k < c.len() && c[k] != '\n'
        invariant
            c@ == s@,
            k <= c@.len(),
            forall|i: int| 0 <= i < k ==> c@[i] != '\n',
        decreases c@.len() - k,
    {
        k += 1;
    }
    proof {
        assert(is_line_cut(s@, k as int));
        lemma_line_cut_unique(s@, k as int, choose|k: int| is_line_cut(s@, k));
    }
    if k < c.len() && k > 0 && c[k - 1] == '\r' {
        s.substring_char(0, k - 1).to_owned()
    } else {
        s.substring_char(0, k).to_owned()
    }
}

/// How two texts stand to each other in the order of `before`.
#[derive(Clone, Copy, PartialEq, Eq, Debug)]
pub enum Place {
    Before,
    Same,
    After,
}

/// Places `a` against `b`.
pub fn place(a: &str, b: &str) -> (r: Place)
    ensures
        r is Before <==> before(a@, b@),
        r is Same <==> a@ == b@,
        r is After <==> before(b@, a@),
        r is Before <==> exists|k: int|
            0 <= k <= a@.len() && k < b@.len() && #[trigger] a@.take(k) == b@.take(k) && (k
                == a@.len() || a@[k] < b@[k]),
{
    proof {
        law_before_is_decided_at_the_first_difference(a@, b@);
    }
    let x = chars_of(a);
    let y = chars_of(b);
    let mut i: usize = 0;
    assert(x@.skip(0) == x@ && y@.skip(0) == y@);
    while i < x.len() && i < y.len() && x[i] == y[i]
        invariant
            x@ == a@,
            y@ == b@,
            i <= x@.len(),
            i <= y@.len(),
            x@.take(i as int) == y@.take(i as int),
            before(a@, b@) == before(x@.skip(i as int), y@.skip(i as int)),
            before(b@, a@) == before(y@.skip(i as int), x@.skip(i as int)),
        decreases x@.len() - i,
    {
        proof {
            assert(x@.skip(i as int).drop_first() == x@.skip(i + 1));
            assert(y@.skip(i as int).drop_first() == y@.skip(i + 1));
            assert(x@.take(i + 1) == x@.take(i as int).push(x@[i as int]));
            assert(y@.take(i + 1) == y@.take(i as int).push(y@[i as int]));
        }
        i += 1;
    }
    proof {
        if i == x@.len() && i == y@.len() {
            assert(x@ == x@.take(i as int) && y@ == y@.take(i as int));
        } else if i < x@.len() && i < y@.len() {
            assert(x@[i as int] != y@[i as int]);
        }
    }
    if i < x.len() {
        if i < y.len() {
            if x[i] < y[i] {
                Place::Before
            } else {
                Place::After
            }
        } else {
            Place::After
        }
    } else if i < y.len() {
        Place::Before
    } else {
        Place::Same
    }
}

/// Of two texts exactly one of these holds: the first comes before the second,
/// they are equal, the second comes before the first.
pub proof fn law_before_is_a_total_order(a: Seq<char>, b: Seq<char>)
    ensures
        a == b ==> !before(a, b) && !before(b, a),
        before(a, b) ==> a != b && !before(b, a),
        a != b ==> before(a, b) || before(b, a),
    decreases a.len(),
{
    if a.len() > 0 && b.len() > 0 {
        law_before_is_a_total_order(a.drop_first(), b.drop_first());
        if a[0] == b[0] && a.drop_first() == b.drop_first() {
            assert(a == seq![a[0]] + a.drop_first());
            assert(b == seq![b[0]] + b.drop_first());
        }
    } else if a.len() == 0 && b.len() == 0 {
        assert(a == b);
    }
}

/// What comes before a text comes before whatever that text comes before.
pub proof fn law_before_is_transitive(a: Seq<char>, b: Seq<char>, c: Seq<char>)
    requires
        before(a, b),
        before(b, c),
    ensures
        before(a, c),
    decreases a.len(),
{
    if a.len() > 0 && a[0] == b[0] && b[0] == c[0] {
        law_before_is_transitive(a.drop_first(), b.drop_first(), c.drop_first());
    }
}

/// A number below ten is one digit, and a digit written behind a number makes
/// ten times that number and the digit.
pub proof fn law_decimal_appends_digits(n: nat, d: nat)
    requires
        d < 10,
    ensures
        decimal(d) == seq!["0123456789"@[d as int]],
        n > 0 ==> decimal(10 * n + d) == decimal(n).push("0123456789"@[d as int]),
{
    reveal_strlit("0123456789");
    assert(digit(d) == "0123456789"@[d as int]);
    if n > 0 {
        assert((10 * n + d) / 10 == n);
        assert((10 * n + d) % 10 == d);
    }
}

/// A number below sixteen is one digit behind `0x`, and a digit written behind
/// a number makes sixteen times that number and the digit. Letters are small.
pub proof fn law_hex_appends_digits(n: nat, d: nat)
    requires
        d < 16,
    ensures
        hex(d) == "0x"@.push("0123456789abcdef"@[d as int]),
        n > 0 ==> hex(16 * n + d) == hex(n).push("0123456789abcdef"@[d as int]),
{
    reveal_strlit("0123456789abcdef");
    assert(digit(d) == "0123456789abcdef"@[d as int]);
    assert(hex(d) == "0x"@.push(digit(d)));
    if n > 0 {
        assert((16 * n + d) / 16 == n);
        assert((16 * n + d) % 16 == d);
        assert(hex(16 * n + d) == hex(n).push(digit(d)));
    }
}

/// Nothing joins to nothing and one part to itself. Joining two lists is joining
/// each and putting the separator between the two.
pub proof fn law_joining_puts_the_separator_between(
    a: Seq<Seq<char>>,
    b: Seq<Seq<char>>,
    sep: Seq<char>,
)
    ensures
        joined(Seq::empty(), sep) == Seq::<char>::empty(),
        a.len() == 1 ==> joined(a, sep) == a[0],
        a.len() > 0 && b.len() > 0 ==> joined(a + b, sep) == joined(a, sep) + sep + joined(b, sep),
    decreases b.len(),
{
    if a.len() > 0 && b.len() == 1 {
        assert((a + b).drop_last() == a);
    } else if a.len() > 0 && b.len() > 1 {
        assert((a + b).drop_last() == a + b.drop_last());
        law_joining_puts_the_separator_between(a, b.drop_last(), sep);
        assert(joined(a, sep) + sep + joined(b.drop_last(), sep) + sep + b.last() == joined(a, sep)
            + sep + joined(b, sep));
    }
}

/// Texts and their characters stand in the same places.
pub proof fn law_views_keep_every_text(parts: Seq<String>)
    ensures
        views(parts).len() == parts.len(),
        forall|i: int| 0 <= i < parts.len() ==> #[trigger] views(parts)[i] == parts[i]@,
{
}

/// A text occurs in another exactly when that other is made of it with some text
/// before and some text behind it.
pub proof fn law_occurring_is_standing_between_two_texts(part: Seq<char>, whole: Seq<char>)
    ensures
        occurs(part, whole) <==> exists|head: Seq<char>, rest: Seq<char>|
            whole == #[trigger] (head + part + rest),
{
    if occurs(part, whole) {
        let i = choose|i: int| stands_at(part, whole, i);
        let head = whole.take(i);
        let rest = whole.skip(i + part.len());
        assert(whole == head + whole.subrange(i, i + part.len()) + rest);
        assert(whole == head + part + rest);
    }
    if exists|head: Seq<char>, rest: Seq<char>| whole == #[trigger] (head + part + rest) {
        let (head, rest) = choose|head: Seq<char>, rest: Seq<char>|
            whole == #[trigger] (head + part + rest);
        let i = head.len() as int;
        assert(whole.subrange(i, i + part.len()) == part);
        assert(stands_at(part, whole, i));
    }
}

/// The first line is what stands before the first line feed, whatever follows,
/// less a carriage return at its end.
pub proof fn law_first_line_ends_at_the_first_line_feed(head: Seq<char>, rest: Seq<char>)
    requires
        !head.contains('\n'),
    ensures
        first_line(head.push('\n') + rest) == (if head.len() > 0 && head.last() == '\r' {
            head.drop_last()
        } else {
            head
        }),
{
    let s = head.push('\n') + rest;
    let k = head.len() as int;
    assert forall|i: int| 0 <= i < k implies s[i] != '\n' by {
        assert(head.contains(head[i]));
    }
    assert(is_line_cut(s, k));
    lemma_line_cut_unique(s, k, choose|k: int| is_line_cut(s, k));
    assert(s.take(k) == head);
    if k > 0 {
        assert(s.take(k - 1) == head.drop_last());
    }
}

/// A text without a line feed is its own first line.
pub proof fn law_one_line_is_its_own_first_line(s: Seq<char>)
    requires
        !s.contains('\n'),
    ensures
        first_line(s) == s,
{
    let k = s.len() as int;
    assert forall|i: int| 0 <= i < k implies s[i] != '\n' by {
        assert(s.contains(s[i]));
    }
    assert(is_line_cut(s, k));
    lemma_line_cut_unique(s, k, choose|k: int| is_line_cut(s, k));
    assert(s.take(k) == s);
}

/// A text comes before another exactly when, behind all that they begin with
/// alike, it has ended and the other has not, or it has the smaller code point.
pub proof fn law_before_is_decided_at_the_first_difference(a: Seq<char>, b: Seq<char>)
    ensures
        before(a, b) <==> exists|k: int|
            0 <= k <= a.len() && k < b.len() && #[trigger] a.take(k) == b.take(k) && (k == a.len()
                || a[k] < b[k]),
    decreases a.len(),
{
    if a.len() > 0 && b.len() > 0 && a[0] == b[0] {
        let x = a.drop_first();
        let y = b.drop_first();
        law_before_is_decided_at_the_first_difference(x, y);
        if before(x, y) {
            let k = choose|k: int|
                0 <= k <= x.len() && k < y.len() && #[trigger] x.take(k) == y.take(k) && (k
                    == x.len() || x[k] < y[k]);
            assert(a.take(k + 1) == seq![a[0]] + x.take(k));
            assert(b.take(k + 1) == seq![b[0]] + y.take(k));
        }
        if exists|k: int|
            0 <= k <= a.len() && k < b.len() && #[trigger] a.take(k) == b.take(k) && (k == a.len()
                || a[k] < b[k]) {
            let k = choose|k: int|
                0 <= k <= a.len() && k < b.len() && #[trigger] a.take(k) == b.take(k) && (k
                    == a.len() || a[k] < b[k]);
            assert(k > 0);
            assert(x.take(k - 1) == a.take(k).drop_first());
            assert(y.take(k - 1) == b.take(k).drop_first());
            assert(x.take(k - 1) == y.take(k - 1));
        }
    } else {
        assert(a.take(0) == b.take(0));
        if exists|k: int|
            0 <= k <= a.len() && k < b.len() && #[trigger] a.take(k) == b.take(k) && (k == a.len()
                || a[k] < b[k]) {
            let k = choose|k: int|
                0 <= k <= a.len() && k < b.len() && #[trigger] a.take(k) == b.take(k) && (k
                    == a.len() || a[k] < b[k]);
            if k > 0 {
                assert(a.take(k)[0] == b.take(k)[0]);
            }
        }
    }
}

} // verus!
