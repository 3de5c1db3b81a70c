use vstd::prelude::*;

use vstd::string::StrSliceExecFns;

use crate::error::MazeError;

verus! {

/// An immutable coordinate pair addressing a cell of the grid.
/// Equality is structural; values are copied freely and never mutated.
#[derive(Debug, Clone, Copy, PartialEq, Eq, Structural)]
pub struct Xy {
    pub x: usize,
    pub y: usize,
}

/// Relies on String::push: appends exactly the one character.
#[verifier::external_body]
pub(crate) fn push_char(s: &mut String, c: char)
    ensures
        final(s)@ == old(s)@.push(c),
{
    s.push(c);
}

pub open spec fn is_dec_digit(c: char) -> bool {
    ||| c == '0'
    ||| c == '1'
    ||| c == '2'
    ||| c == '3'
    ||| c == '4'
    ||| c == '5'
    ||| c == '6'
    ||| c == '7'
    ||| c == '8'
    ||| c == '9'
}

/// The numeric value of a decimal digit character.
pub open spec fn digit_val(c: char) -> nat {
    if c == '0' {
        0
    } else if c == '1' {
        1
    } else if c == '2' {
        2
    } else if c == '3' {
        3
    } else if c == '4' {
        4
    } else if c == '5' {
        5
    } else if c == '6' {
        6
    } else if c == '7' {
        7
    } else if c == '8' {
        8
    } else {
        9
    }
}

/// The decimal digit character for a value below ten.
pub open spec fn digit_for(n: nat) -> char {
    if n == 0 {
        '0'
    } else if n == 1 {
        '1'
    } else if n == 2 {
        '2'
    } else if n == 3 {
        '3'
    } else if n == 4 {
        '4'
    } else if n == 5 {
        '5'
    } else if n == 6 {
        '6'
    } else if n == 7 {
        '7'
    } else if n == 8 {
        '8'
    } else {
        '9'
    }
}

/// The canonical decimal digits of a number: no leading zeros, "0" for zero.
pub open spec fn dec_digits(n: nat) -> Seq<char>
    decreases n,
{
    if n < 10 {
        seq![digit_for(n)]
    } else {
        dec_digits(n / 10).push(digit_for(n % 10))
    }
}

/// The number a run of decimal digits denotes.
pub open spec fn digits_val(ds: Seq<char>) -> nat
    decreases ds.len(),
{
    if ds.len() == 0 {
        0
    } else {
        digits_val(ds.drop_last()) * 10 + digit_val(ds.last())
    }
}

/// The text form of a coordinate: "(x,y)" with both numbers in canonical
/// decimal.
pub open spec fn xy_text(x: nat, y: nat) -> Seq<char> {
    seq!['('] + dec_digits(x) + seq![','] + dec_digits(y) + seq![')']
}

/// The first position at or after i that does not hold a decimal digit.
pub open spec fn skip_digits(s: Seq<char>, i: int) -> int
    decreases s.len() - i when 0 <= i <= s.len()
{
    if 0 <= i < s.len() && is_dec_digit(s[i]) {
        skip_digits(s, i + 1)
    } else {
        i
    }
}

/// Where the x digit run of a coordinate text ends.
pub open spec fn x_end(s: Seq<char>) -> int {
    skip_digits(s, 1)
}

pub open spec fn x_digits(s: Seq<char>) -> Seq<char> {
    s.subrange(1, x_end(s))
}

/// Whether the text opens with '(' followed by a canonical x number and the
/// separating comma, the number fitting the machine word.
pub open spec fn parse_x_ok(s: Seq<char>) -> bool {
    &&& s.len() >= 1
    &&& s[0] == '('
    &&& x_end(s) > 1
    &&& x_end(s) < s.len()
    &&& s[x_end(s)] == ','
    &&& (x_end(s) == 2 || s[1] != '0')
    &&& digits_val(x_digits(s)) <= usize::MAX
}

pub open spec fn y_start(s: Seq<char>) -> int {
    x_end(s) + 1
}

pub open spec fn y_end(s: Seq<char>) -> int {
    skip_digits(s, y_start(s))
}

pub open spec fn y_digits(s: Seq<char>) -> Seq<char> {
    s.subrange(y_start(s), y_end(s))
}

/// Whether, after a well-formed x part, the text carries a canonical y
/// number and closes with ')' as its final character.
pub open spec fn parse_y_ok(s: Seq<char>) -> bool {
    &&& y_end(s) > y_start(s)
    &&& y_end(s) == s.len() - 1
    &&& s[y_end(s)] == ')'
    &&& (y_end(s) == y_start(s) + 1 || s[y_start(s)] != '0')
    &&& digits_val(y_digits(s)) <= usize::MAX
}

pub open spec fn x_val(s: Seq<char>) -> nat {
    digits_val(x_digits(s))
}

pub open spec fn y_val(s: Seq<char>) -> nat {
    digits_val(y_digits(s))
}

/// The canonical digits of any number are a nonempty digit run without a
/// leading zero, and they denote the number itself.
pub proof fn lemma_dec_digits_shape(n: nat)
    ensures
        dec_digits(n).len() >= 1,
        forall|m: int| 0 <= m < dec_digits(n).len() ==> is_dec_digit(#[trigger] dec_digits(n)[m]),
        dec_digits(n).len() > 1 ==> dec_digits(n)[0] != '0',
        digits_val(dec_digits(n)) == n,
    decreases n,
{
    if n < 10 {
        assert(dec_digits(n) == seq![digit_for(n)]);
        assert(dec_digits(n).drop_last() =~= Seq::<char>::empty());
        assert(digits_val(Seq::<char>::empty()) == 0);
        assert(dec_digits(n).last() == digit_for(n));
        assert(digit_val(digit_for(n)) == n);
    } else {
        lemma_dec_digits_shape(n / 10);
        let pre = dec_digits(n / 10);
        assert(dec_digits(n) == pre.push(digit_for(n % 10)));
        assert(dec_digits(n).drop_last() =~= pre);
        assert(dec_digits(n).last() == digit_for(n % 10));
        assert(digit_val(digit_for(n % 10)) == n % 10);
        assert(digits_val(dec_digits(n)) == (n / 10) * 10 + n % 10);
        assert((n / 10) * 10 + n % 10 == n) by (nonlinear_arith);
        assert(n / 10 >= 1);
        assert(pre[0] != '0') by {
            if pre[0] == '0' && pre.len() == 1 {
                assert(pre.drop_last() =~= Seq::<char>::empty());
                assert(digits_val(Seq::<char>::empty()) == 0);
                assert(pre.last() == pre[0]);
                assert(digits_val(pre) == digit_val('0'));
            }
        }
        assert(dec_digits(n)[0] == pre[0]);
    }
}

/// A nonempty digit run without a leading zero denotes at least one.
proof fn lemma_val_positive(ds: Seq<char>)
    requires
        ds.len() >= 1,
        forall|m: int| 0 <= m < ds.len() ==> is_dec_digit(#[trigger] ds[m]),
        ds[0] != '0',
    ensures
        digits_val(ds) >= 1,
    decreases ds.len(),
{
    if ds.len() == 1 {
        assert(ds.drop_last() =~= Seq::<char>::empty());
        assert(digits_val(Seq::<char>::empty()) == 0);
        assert(ds.last() == ds[0]);
        assert(digit_val(ds[0]) >= 1);
    } else {
        let pre = ds.drop_last();
        assert(pre[0] == ds[0]);
        assert(forall|m: int| 0 <= m < pre.len() ==> is_dec_digit(#[trigger] pre[m]));
        lemma_val_positive(pre);
    }
}

/// Canonical decimal representation is unique: re-rendering the value of a
/// nonempty digit run without a leading zero gives the run back.
pub proof fn lemma_val_unique(ds: Seq<char>)
    requires
        ds.len() >= 1,
        forall|m: int| 0 <= m < ds.len() ==> is_dec_digit(#[trigger] ds[m]),
        ds.len() > 1 ==> ds[0] != '0',
    ensures
        dec_digits(digits_val(ds)) == ds,
    decreases ds.len(),
{
    if ds.len() == 1 {
        assert(ds.drop_last() =~= Seq::<char>::empty());
        assert(digits_val(Seq::<char>::empty()) == 0);
        assert(ds.last() == ds[0]);
        let v = digits_val(ds);
        assert(v == digit_val(ds[0]));
        assert(v < 10);
        assert(digit_for(v) == ds[0]);
        assert(dec_digits(v) =~= ds);
    } else {
        let pre = ds.drop_last();
        let d = ds.last();
        assert(pre[0] == ds[0]);
        assert(forall|m: int| 0 <= m < pre.len() ==> is_dec_digit(#[trigger] pre[m]));
        lemma_val_unique(pre);
        lemma_val_positive(pre);
        let v = digits_val(ds);
        let pv = digits_val(pre);
        assert(v == pv * 10 + digit_val(d));
        assert(digit_val(d) < 10);
        assert(pv * 10 >= 10) by (nonlinear_arith)
            requires
                pv >= 1,
        ;
        assert(v >= 10);
        assert(v / 10 == pv && v % 10 == digit_val(d)) by (nonlinear_arith)
            requires
                v == pv * 10 + digit_val(d),
                digit_val(d) < 10,
        ;
        assert(digit_for(digit_val(d)) == d);
        assert(dec_digits(v) == dec_digits(pv).push(digit_for((v % 10) as nat)));
        assert(dec_digits(v) =~= ds);
    }
}

/// Longer digit runs never denote smaller numbers.
proof fn lemma_val_prefix_mono(s: Seq<char>, a: int, j: int, k: int)
    requires
        0 <= a <= j <= k <= s.len(),
    ensures
        digits_val(s.subrange(a, j)) <= digits_val(s.subrange(a, k)),
    decreases k - j,
{
    if j < k {
        lemma_val_prefix_mono(s, a, j, k - 1);
        assert(s.subrange(a, k).drop_last() =~= s.subrange(a, k - 1));
        let pv = digits_val(s.subrange(a, k - 1));
        assert(digits_val(s.subrange(a, k)) == pv * 10 + digit_val(s[k - 1]));
        assert(pv * 10 >= pv) by (nonlinear_arith)
            requires
                pv >= 0,
        ;
    }
}

/// Scanning a digit run of known extent stops exactly at its end.
proof fn lemma_skip_digits_run(s: Seq<char>, a: int, b: int)
    requires
        0 <= a <= b <= s.len(),
        forall|m: int| a <= m < b ==> is_dec_digit(#[trigger] s[m]),
        b == s.len() || !is_dec_digit(s[b]),
    ensures
        skip_digits(s, a) == b,
    decreases b - a,
{
    if a < b {
        lemma_skip_digits_run(s, a + 1, b);
    }
}

/// Everything a digit scan passes over is a digit, and the stop position is
/// the first non-digit (or the end).
proof fn lemma_skip_digits_shape(s: Seq<char>, a: int)
    requires
        0 <= a <= s.len(),
    ensures
        a <= skip_digits(s, a) <= s.len(),
        forall|m: int| a <= m < skip_digits(s, a) ==> is_dec_digit(#[trigger] s[m]),
        skip_digits(s, a) == s.len() || !is_dec_digit(s[skip_digits(s, a)]),
    decreases s.len() - a,
{
    if a < s.len() && is_dec_digit(s[a]) {
        lemma_skip_digits_shape(s, a + 1);
    }
}

/// The round trip: the text of any machine-word coordinate parses back to
/// exactly its components.
pub proof fn lemma_text_round_trip(x: nat, y: nat)
    requires
        x <= usize::MAX,
        y <= usize::MAX,
    ensures
        parse_x_ok(xy_text(x, y)),
        parse_y_ok(xy_text(x, y)),
        x_val(xy_text(x, y)) == x,
        y_val(xy_text(x, y)) == y,
{
    lemma_dec_digits_shape(x);
    lemma_dec_digits_shape(y);
    let dx = dec_digits(x);
    let dy = dec_digits(y);
    let s = xy_text(x, y);
    let xl = dx.len() as int;
    let yl = dy.len() as int;
    assert(s.len() == 3 + xl + yl);
    assert(s[0] == '(');
    assert(s[1 + xl] == ',');
    assert(s[2 + xl + yl] == ')');
    assert(forall|m: int| 1 <= m < 1 + xl ==> s[m] == dx[m - 1] && is_dec_digit(#[trigger] s[m]));
    assert(forall|m: int|
        2 + xl <= m < 2 + xl + yl ==> s[m] == dy[m - 2 - xl] && is_dec_digit(#[trigger] s[m]));
    lemma_skip_digits_run(s, 1, 1 + xl);
    assert(x_end(s) == 1 + xl);
    assert(x_digits(s) =~= dx);
    assert(x_val(s) == x);
    assert(x_end(s) == 2 ==> true);
    assert(xl > 1 ==> s[1] == dx[0] && dx[0] != '0');
    lemma_skip_digits_run(s, 2 + xl, 2 + xl + yl);
    assert(y_start(s) == 2 + xl);
    assert(y_end(s) == 2 + xl + yl);
    assert(y_digits(s) =~= dy);
    assert(y_val(s) == y);
    assert(yl > 1 ==> s[2 + xl] == dy[0] && dy[0] != '0');
}

fn is_digit_char(c: char) -> (r: bool)
    ensures
        r == is_dec_digit(c),
{
    c == '0' || c == '1' || c == '2' || c == '3' || c == '4' || c == '5' || c == '6' || c == '7'
        || c == '8' || c == '9'
}

fn digit_value(c: char) -> (v: usize)
    requires
        is_dec_digit(c),
    ensures
        v == digit_val(c),
        v < 10,
{
    if c == '0' {
        0
    } else if c == '1' {
        1
    } else if c == '2' {
        2
    } else if c == '3' {
        3
    } else if c == '4' {
        4
    } else if c == '5' {
        5
    } else if c == '6' {
        6
    } else if c == '7' {
        7
    } else if c == '8' {
        8
    } else {
        9
    }
}

fn digit_char(d: usize) -> (c: char)
    requires
        d < 10,
    ensures
        c == digit_for(d as nat),
{
    if d == 0 {
        '0'
    } else if d == 1 {
        '1'
    } else if d == 2 {
        '2'
    } else if d == 3 {
        '3'
    } else if d == 4 {
        '4'
    } else if d == 5 {
        '5'
    } else if d == 6 {
        '6'
    } else if d == 7 {
        '7'
    } else if d == 8 {
        '8'
    } else {
        '9'
    }
}

/// Appends the canonical decimal digits of v.
fn push_decimal(out: &mut String, v: usize)
    ensures
        final(out)@ == old(out)@ + dec_digits(v as nat),
{
    let mut digits: Vec<char> = Vec::new();
    let mut cur: usize = v;
    digits.insert(0, digit_char(cur % 10));
    proof {
        assert(digits@ =~= seq![digit_for((v as nat) % 10)]);
    }
    cur = cur / 10;
    while cur > 0
        invariant
            dec_digits(v as nat) == (if cur > 0 {
                dec_digits(cur as nat)
            } else {
                Seq::<char>::empty()
            }) + digits@,
        decreases cur,
    {
        let ghost d0 = digits@;
        digits.insert(0, digit_char(cur % 10));
        proof {
            assert(digits@ =~= seq![digit_for((cur as nat) % 10)] + d0);
            if cur >= 10 {
                assert(dec_digits(cur as nat) == dec_digits((cur as nat) / 10).push(
                    digit_for((cur as nat) % 10),
                ));
                assert(dec_digits((cur as nat) / 10).push(digit_for((cur as nat) % 10)) + d0
                    =~= dec_digits((cur / 10) as nat) + digits@);
            } else {
                assert(dec_digits(cur as nat) =~= seq![digit_for((cur as nat) % 10)]);
                assert(dec_digits(cur as nat) + d0 =~= digits@);
            }
        }
        cur = cur / 10;
    }
    let mut i: usize = 0;
    while i < digits.len()
        invariant
            i <= digits@.len(),
            dec_digits(v as nat) == digits@,
            out@ == old(out)@ + digits@.subrange(0, i as int),
        decreases digits@.len() - i,
    {
        push_char(out, digits[i]);
        proof {
            assert(old(out)@ + digits@.subrange(0, i as int + 1) =~= (old(out)@ + digits@.subrange(
                0,
                i as int,
            )).push(digits@[i as int]));
        }
        i += 1;
    }
    proof {
        assert(digits@.subrange(0, digits@.len() as int) =~= digits@);
    }
}

impl Xy {
    pub fn new(x: usize, y: usize) -> (p: Xy)
        ensures
            p.x == x,
            p.y == y,
    {
        Xy { x, y }
    }

    pub fn x(&self) -> (r: usize)
        ensures
            r == self.x,
    {
        self.x
    }

    pub fn y(&self) -> (r: usize)
        ensures
            r == self.y,
    {
        self.y
    }

    /// Formats the coordinate as "(x,y)".
    pub fn to_text(&self) -> (r: String)
        ensures
            r@ == xy_text(self.x as nat, self.y as nat),
    {
        let mut out = String::new();
        push_char(&mut out, '(');
        push_decimal(&mut out, self.x);
        push_char(&mut out, ',');
        push_decimal(&mut out, self.y);
        push_char(&mut out, ')');
        proof {
            assert(out@ =~= xy_text(self.x as nat, self.y as nat));
        }
        out
    }

    /// Parses "(x,y)": an opening parenthesis, the canonical decimal digits
    /// of x, a comma, the canonical decimal digits of y, a closing
    /// parenthesis, nothing more. A malformed text is rejected with the
    /// offending component named; round-tripping any formatted coordinate
    /// gives the coordinate back.
    pub fn from_str(s: &str) -> (r: Result<Xy, MazeError>)
        ensures
            (r matches Ok(p)) <==> (parse_x_ok(s@) && parse_y_ok(s@)),
            r matches Ok(p) ==> p.x as nat == x_val(s@) && p.y as nat == y_val(s@) && s@ == xy_text(
                p.x as nat,
                p.y as nat,
            ),
            forall|x: nat, y: nat|
                s@ == xy_text(x, y) && x <= usize::MAX && y <= usize::MAX ==> (r matches Ok(p)
                    && p.x == x && p.y == y),
            (r == Err::<Xy, MazeError>(MazeError::InvalidCoordinateX)) <==> !parse_x_ok(s@),
            (r == Err::<Xy, MazeError>(MazeError::InvalidCoordinateY)) <==> (parse_x_ok(s@)
                && !parse_y_ok(s@)),
    {
        let r = Xy::parse_text(s);
        proof {
            assert forall|x: nat, y: nat|
                s@ == xy_text(x, y) && x <= usize::MAX && y <= usize::MAX implies (r matches Ok(p)
                && p.x == x && p.y == y) by {
                lemma_text_round_trip(x, y);
            }
        }
        r
    }

    fn parse_text(s: &str) -> (r: Result<Xy, MazeError>)
        ensures
            (r matches Ok(p)) <==> (parse_x_ok(s@) && parse_y_ok(s@)),
            r matches Ok(p) ==> p.x as nat == x_val(s@) && p.y as nat == y_val(s@) && s@ == xy_text(
                p.x as nat,
                p.y as nat,
            ),
            (r == Err::<Xy, MazeError>(MazeError::InvalidCoordinateX)) <==> !parse_x_ok(s@),
            (r == Err::<Xy, MazeError>(MazeError::InvalidCoordinateY)) <==> (parse_x_ok(s@)
                && !parse_y_ok(s@)),
    {
        let n = s.unicode_len();
        if n < 1 || s.get_char(0) != '(' {
            return Err(MazeError::InvalidCoordinateX);
        }
        let mut i: usize = 1;
        let mut acc: usize = 0;
        let mut over = false;
        while i < n && is_digit_char(s.get_char(i))
            invariant
                1 <= i <= n,
                n == s@.len(),
                forall|m: int| 1 <= m < i ==> is_dec_digit(#[trigger] s@[m]),
                skip_digits(s@, 1) == skip_digits(s@, i as int),
                !over ==> acc == digits_val(s@.subrange(1, i as int)),
                over ==> digits_val(s@.subrange(1, i as int)) > usize::MAX,
            decreases n - i,
        {
            let c = s.get_char(i);
            let dv = digit_value(c);
            let ghost pv = digits_val(s@.subrange(1, i as int));
            proof {
                assert(s@.subrange(1, i as int + 1).drop_last() =~= s@.subrange(1, i as int));
                assert(s@.subrange(1, i as int + 1).last() == s@[i as int]);
                assert(digits_val(s@.subrange(1, i as int + 1)) == pv * 10 + digit_val(c));
            }
            if !over {
                match acc.checked_mul(10) {
                    Some(t) => {
                        match t.checked_add(dv) {
                            Some(v2) => {
                                acc = v2;
                            },
                            None => {
                                over = true;
                            },
                        }
                    },
                    None => {
                        over = true;
                    },
                }
            } else {
                proof {
                    assert(pv * 10 >= pv) by (nonlinear_arith)
                        requires
                            pv >= 0,
                    ;
                }
            }
            i += 1;
        }
        proof {
            assert(skip_digits(s@, i as int) == i as int);
            assert(x_end(s@) == i as int);
        }
        if i == 1 {
            return Err(MazeError::InvalidCoordinateX);
        }
        if i > 2 && s.get_char(1) == '0' {
            return Err(MazeError::InvalidCoordinateX);
        }
        if over {
            return Err(MazeError::InvalidCoordinateX);
        }
        if i >= n || s.get_char(i) != ',' {
            return Err(MazeError::InvalidCoordinateX);
        }
        assert(parse_x_ok(s@));
        let xv = acc;
        let start2 = i + 1;
        let mut j: usize = start2;
        let mut acc2: usize = 0;
        let mut over2 = false;
        while j < n && is_digit_char(s.get_char(j))
            invariant
                start2 == x_end(s@) + 1,
                start2 <= j <= n,
                n == s@.len(),
                forall|m: int| start2 <= m < j ==> is_dec_digit(#[trigger] s@[m]),
                skip_digits(s@, start2 as int) == skip_digits(s@, j as int),
                !over2 ==> acc2 == digits_val(s@.subrange(start2 as int, j as int)),
                over2 ==> digits_val(s@.subrange(start2 as int, j as int)) > usize::MAX,
            decreases n - j,
        {
            let c = s.get_char(j);
            let dv = digit_value(c);
            let ghost pv = digits_val(s@.subrange(start2 as int, j as int));
            proof {
                assert(s@.subrange(start2 as int, j as int + 1).drop_last() =~= s@.subrange(
                    start2 as int,
                    j as int,
                ));
                assert(s@.subrange(start2 as int, j as int + 1).last() == s@[j as int]);
                assert(digits_val(s@.subrange(start2 as int, j as int + 1)) == pv * 10 + digit_val(
                    c,
                ));
            }
            if !over2 {
                match acc2.checked_mul(10) {
                    Some(t) => {
                        match t.checked_add(dv) {
                            Some(v2) => {
                                acc2 = v2;
                            },
                            None => {
                                over2 = true;
                            },
                        }
                    },
                    None => {
                        over2 = true;
                    },
                }
            } else {
                proof {
                    assert(pv * 10 >= pv) by (nonlinear_arith)
                        requires
                            pv >= 0,
                    ;
                }
            }
            j += 1;
        }
        proof {
            assert(skip_digits(s@, j as int) == j as int);
            assert(y_end(s@) == j as int);
        }
        if j == start2 {
            return Err(MazeError::InvalidCoordinateY);
        }
        if j > start2 + 1 && s.get_char(start2) == '0' {
            return Err(MazeError::InvalidCoordinateY);
        }
        if over2 {
            return Err(MazeError::InvalidCoordinateY);
        }
        if j >= n || s.get_char(j) != ')' {
            return Err(MazeError::InvalidCoordinateY);
        }
        if j != n - 1 {
            return Err(MazeError::InvalidCoordinateY);
        }
        assert(parse_y_ok(s@));
        proof {
            lemma_val_unique(x_digits(s@));
            lemma_val_unique(y_digits(s@));
            assert(s@ =~= xy_text(xv as nat, acc2 as nat));
        }
        Ok(Xy { x: xv, y: acc2 })
    }
}

} // verus!
