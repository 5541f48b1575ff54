//! The text format of instances: a header line with the number of
//! customers (the depot not counted) and the capacity, a line of demands,
//! then one line per node (the depot first) whose first two numbers are its
//! coordinates. Numbers are separated by whitespace.
use vstd::prelude::*;
use crate::instance::Node;

verus! {

/// The newline byte.
pub open spec fn is_newline(c: u8) -> bool {
    c == 10
}

/// ASCII whitespace: space, tab, line feed, vertical tab, form feed,
/// carriage return.
pub open spec fn is_space(c: u8) -> bool {
    c == 32 || c == 9 || c == 10 || c == 11 || c == 12 || c == 13
}

/// End of the line that starts at `pos`: the next newline, or the end.
pub open spec fn line_end(b: Seq<u8>, pos: int) -> int
    decreases b.len() - pos,
{
    if pos >= b.len() {
        b.len() as int
    } else if is_newline(b[pos]) {
        pos
    } else {
        line_end(b, pos + 1)
    }
}

/// A line ends between its start and the end of the text.
pub proof fn lemma_line_end(b: Seq<u8>, pos: int)
    requires
        0 <= pos <= b.len(),
    ensures
        pos <= line_end(b, pos) <= b.len(),
    decreases b.len() - pos,
{
    if pos < b.len() && !is_newline(b[pos]) {
        lemma_line_end(b, pos + 1);
    }
}

/// The lines of `b` from `pos` on, without their newlines; text after the
/// last newline is a line when it is not empty.
pub open spec fn lines_from(b: Seq<u8>, pos: int) -> Seq<Seq<u8>>
    decreases b.len() + 1 - pos,
{
    if pos < 0 || pos >= b.len() {
        Seq::empty()
    } else {
        let e = line_end(b, pos);
        proof {
            lemma_line_end(b, pos);
        }
        seq![b.subrange(pos, e)] + lines_from(b, e + 1)
    }
}

/// The lines of `b`.
pub open spec fn lines_of(b: Seq<u8>) -> Seq<Seq<u8>> {
    lines_from(b, 0)
}

/// End of the run of non-space bytes that starts at `pos`.
pub open spec fn token_end(l: Seq<u8>, pos: int) -> int
    decreases l.len() - pos,
{
    if pos >= l.len() {
        l.len() as int
    } else if is_space(l[pos]) {
        pos
    } else {
        token_end(l, pos + 1)
    }
}

/// A token ends between its start and the end of the line, after its
/// start when it starts with a non-space byte.
pub proof fn lemma_token_end(l: Seq<u8>, pos: int)
    requires
        0 <= pos <= l.len(),
    ensures
        pos <= token_end(l, pos) <= l.len(),
        pos < l.len() && !is_space(l[pos]) ==> pos < token_end(l, pos),
    decreases l.len() - pos,
{
    if pos < l.len() && !is_space(l[pos]) {
        lemma_token_end(l, pos + 1);
    }
}

/// The maximal runs of non-space bytes of `l` from `pos` on.
pub open spec fn tokens_from(l: Seq<u8>, pos: int) -> Seq<Seq<u8>>
    decreases l.len() - pos,
{
    if pos < 0 || pos >= l.len() {
        Seq::empty()
    } else if is_space(l[pos]) {
        tokens_from(l, pos + 1)
    } else {
        let e = token_end(l, pos);
        proof {
            lemma_token_end(l, pos);
        }
        seq![l.subrange(pos, e)] + tokens_from(l, e)
    }
}

/// The whitespace-separated tokens of `l`.
pub open spec fn tokens_of(l: Seq<u8>) -> Seq<Seq<u8>> {
    tokens_from(l, 0)
}

/// Copies `b[start..end]`.
fn copy_range(b: &[u8], start: usize, end: usize) -> (r: Vec<u8>)
    requires
        start <= end <= b@.len(),
    ensures
        r@ == b@.subrange(start as int, end as int),
{
    let mut r: Vec<u8> = Vec::new();
    let mut i = start;
    while i < end
        invariant
            start <= i <= end <= b@.len(),
            r@ == b@.subrange(start as int, i as int),
        decreases end - i,
    {
        r.push(b[i]);
        i = i + 1;
        assert(r@ =~= b@.subrange(start as int, i as int));
    }
    r
}

/// The lines of `b`.
pub fn split_lines(b: &[u8]) -> (r: Vec<Vec<u8>>)
    ensures
        r@.len() == lines_of(b@).len(),
        forall|i: int| 0 <= i < r@.len() ==> (#[trigger] r@[i])@ == lines_of(b@)[i],
{
    let mut r: Vec<Vec<u8>> = Vec::new();
    let mut pos: usize = 0;
    let ghost total = lines_of(b@);
    while pos < b.len()
        invariant
            pos <= b@.len(),
            total == lines_of(b@),
            r@.len() + lines_from(b@, pos as int).len() == total.len(),
            forall|i: int| 0 <= i < r@.len() ==> (#[trigger] r@[i])@ == total[i],
            forall|i: int| 0 <= i < lines_from(b@, pos as int).len() ==> #[trigger] lines_from(b@, pos as int)[i] == total[r@.len() + i],
        decreases b@.len() - pos,
    {
        let mut e = pos;
        while e < b.len() && b[e] != 10
            invariant
                pos <= e <= b@.len(),
                line_end(b@, pos as int) == line_end(b@, e as int),
            decreases b@.len() - e,
        {
            e = e + 1;
        }
        let ghost rest = lines_from(b@, pos as int);
        proof {
            lemma_line_end(b@, pos as int);
            assert(line_end(b@, e as int) == e);
            assert(rest == seq![b@.subrange(pos as int, e as int)] + lines_from(b@, e + 1));
        }
        let line = copy_range(b, pos, e);
        r.push(line);
        proof {
            assert forall|i: int| 0 <= i < lines_from(b@, e + 1).len() implies #[trigger] lines_from(b@, e + 1)[i] == total[r@.len() + i] by {
                assert(lines_from(b@, e + 1)[i] == rest[i + 1]);
            }
            assert forall|i: int| 0 <= i < r@.len() implies (#[trigger] r@[i])@ == total[i] by {
                if i == r@.len() - 1 {
                    assert(rest[0] == b@.subrange(pos as int, e as int));
                }
            }
        }
        if e < b.len() {
            pos = e + 1;
        } else {
            pos = e;
        }
    }
    proof {
        assert(lines_from(b@, pos as int).len() == 0);
    }
    r
}

/// The whitespace-separated tokens of `l`.
pub fn split_tokens(l: &[u8]) -> (r: Vec<Vec<u8>>)
    ensures
        r@.len() == tokens_of(l@).len(),
        forall|i: int| 0 <= i < r@.len() ==> (#[trigger] r@[i])@ == tokens_of(l@)[i],
{
    let mut r: Vec<Vec<u8>> = Vec::new();
    let mut pos: usize = 0;
    let ghost total = tokens_of(l@);
    while pos < l.len()
        invariant
            pos <= l@.len(),
            total == tokens_of(l@),
            r@.len() + tokens_from(l@, pos as int).len() == total.len(),
            forall|i: int| 0 <= i < r@.len() ==> (#[trigger] r@[i])@ == total[i],
            forall|i: int| 0 <= i < tokens_from(l@, pos as int).len() ==> #[trigger] tokens_from(l@, pos as int)[i] == total[r@.len() + i],
        decreases l@.len() - pos,
    {
        let c = l[pos];
        if c == 32 || c == 9 || c == 10 || c == 11 || c == 12 || c == 13 {
            pos = pos + 1;
        } else {
            let mut e = pos + 1;
            proof {
                assert(token_end(l@, pos as int) == token_end(l@, e as int));
            }
            while e < l.len() && !(l[e] == 32 || l[e] == 9 || l[e] == 10 || l[e] == 11 || l[e] == 12 || l[e] == 13)
                invariant
                    pos < e <= l@.len(),
                    token_end(l@, pos as int) == token_end(l@, e as int),
                decreases l@.len() - e,
            {
                e = e + 1;
            }
            let ghost rest = tokens_from(l@, pos as int);
            proof {
                assert(token_end(l@, e as int) == e);
                assert(rest == seq![l@.subrange(pos as int, e as int)] + tokens_from(l@, e as int));
            }
            let token = copy_range(l, pos, e);
            r.push(token);
            proof {
                assert forall|i: int| 0 <= i < tokens_from(l@, e as int).len() implies #[trigger] tokens_from(l@, e as int)[i] == total[r@.len() + i] by {
                    assert(tokens_from(l@, e as int)[i] == rest[i + 1]);
                }
                assert forall|i: int| 0 <= i < r@.len() implies (#[trigger] r@[i])@ == total[i] by {
                    if i == r@.len() - 1 {
                        assert(rest[0] == l@.subrange(pos as int, e as int));
                    }
                }
            }
            pos = e;
        }
    }
    r
}

/// An ASCII digit.
pub open spec fn is_digit(c: u8) -> bool {
    48 <= c <= 57
}

/// Every byte of `s` is a digit.
pub open spec fn all_digits(s: Seq<u8>) -> bool {
    forall|i: int| 0 <= i < s.len() ==> is_digit(#[trigger] s[i])
}

/// The number written by the digits `s`.
pub open spec fn digits_value(s: Seq<u8>) -> nat
    decreases s.len(),
{
    if s.len() == 0 {
        0
    } else {
        digits_value(s.drop_last()) * 10 + (s.last() - 48) as nat
    }
}

/// The integer written by `t`: an optional `+` or `-`, then at least one
/// digit and nothing else.
pub open spec fn int_of(t: Seq<u8>) -> Option<int> {
    if t.len() > 0 && (t[0] == 43 || t[0] == 45) {
        let r = t.skip(1);
        if r.len() > 0 && all_digits(r) {
            Some(
                if t[0] == 45 {
                    -(digits_value(r) as int)
                } else {
                    digits_value(r) as int
                },
            )
        } else {
            None
        }
    } else if t.len() > 0 && all_digits(t) {
        Some(digits_value(t) as int)
    } else {
        None
    }
}

/// The integer written by `t` when it lies within `lo ..= hi`.
pub open spec fn int_within(t: Seq<u8>, lo: int, hi: int) -> Option<int> {
    match int_of(t) {
        Some(v) => if lo <= v <= hi {
            Some(v)
        } else {
            None
        },
        None => None,
    }
}

/// Reads `t` as an integer within `lo ..= hi`.
pub fn parse_int(t: &[u8], lo: i64, hi: i64) -> (r: Option<i64>)
    requires
        i32::MIN <= lo <= 0 <= hi <= i32::MAX,
    ensures
        match r {
            Some(v) => int_within(t@, lo as int, hi as int) == Some(v as int),
            None => int_within(t@, lo as int, hi as int) is None,
        },
{
    let n = t.len();
    if n == 0 {
        return None;
    }
    let mut i: usize = 0;
    let mut negative = false;
    if t[0] == 43 || t[0] == 45 {
        negative = t[0] == 45;
        i = 1;
        if n == 1 {
            return None;
        }
    }
    let start = i;
    let ghost body = t@.subrange(start as int, n as int);
    proof {
        if start == 1 {
            assert(body =~= t@.skip(1));
        } else {
            assert(body =~= t@);
        }
    }
    let mut v: i64 = 0;
    let mut big = false;
    while i < n
        invariant
            start <= i <= n,
            n == t@.len(),
            body == t@.subrange(start as int, n as int),
            start == 1 <==> (t@[0] == 43 || t@[0] == 45),
            start <= 1,
            start == 1 ==> body == t@.skip(1),
            start == 0 ==> body == t@,
            negative == (t@[0] == 45),
            0 < n,
            all_digits(t@.subrange(start as int, i as int)),
            big ==> digits_value(t@.subrange(start as int, i as int)) > 0x1_0000_0000,
            !big ==> v == digits_value(t@.subrange(start as int, i as int)) && v <= 0x1_0000_0000,
        decreases n - i,
    {
        let c = t[i];
        if !(48 <= c && c <= 57) {
            proof {
                assert(body[i - start] == c);
                assert(!is_digit(body[i - start]));
                assert(!all_digits(body));
            }
            return None;
        }
        let ghost before = t@.subrange(start as int, i as int);
        let ghost after = t@.subrange(start as int, i + 1);
        proof {
            assert(after.drop_last() =~= before);
            assert(after.last() == c);
            assert forall|k: int| 0 <= k < after.len() implies is_digit(#[trigger] after[k]) by {
                if k < before.len() {
                    assert(after[k] == before[k]);
                }
            }
        }
        if !big {
            let nv = v * 10 + (c - 48) as i64;
            if nv > 0x1_0000_0000 {
                big = true;
            } else {
                v = nv;
            }
        }
        i = i + 1;
    }
    proof {
        assert(t@.subrange(start as int, i as int) =~= body);
    }
    if big {
        return None;
    }
    let value = if negative {
        -v
    } else {
        v
    };
    if value < lo || value > hi {
        None
    } else {
        Some(value)
    }
}

/// The demands written on a line: its tokens that read as an `i32`, in
/// order; other tokens are skipped.
pub open spec fn demand_values(toks: Seq<Seq<u8>>) -> Seq<i32>
    decreases toks.len(),
{
    if toks.len() == 0 {
        Seq::empty()
    } else {
        let rest = demand_values(toks.drop_last());
        match int_within(toks.last(), i32::MIN as int, i32::MAX as int) {
            Some(v) => rest.push(v as i32),
            None => rest,
        }
    }
}

/// A coordinate token: its value as an `i32`, or 0.
pub open spec fn coord_value(t: Seq<u8>) -> i32 {
    match int_within(t, i32::MIN as int, i32::MAX as int) {
        Some(v) => v as i32,
        None => 0,
    }
}

/// The coordinates written on `lines`: the first two tokens of each line
/// that has at least two.
pub open spec fn coord_values(lines: Seq<Seq<u8>>) -> Seq<(i32, i32)>
    decreases lines.len(),
{
    if lines.len() == 0 {
        Seq::empty()
    } else {
        let rest = coord_values(lines.drop_last());
        let t = tokens_of(lines.last());
        if t.len() >= 2 {
            rest.push((coord_value(t[0]), coord_value(t[1])))
        } else {
            rest
        }
    }
}

/// `s` extended with copies of `x` up to length `n` (unchanged when it is
/// already that long).
pub open spec fn padded<T>(s: Seq<T>, n: int, x: T) -> Seq<T> {
    if s.len() >= n {
        s
    } else {
        s + Seq::new((n - s.len()) as nat, |i: int| x)
    }
}

/// What is wrong with an instance text.
#[derive(Debug, Clone, Copy, PartialEq, Eq, Structural)]
pub enum InstanceFileError {
    /// There is no line.
    Empty,
    /// The first line has fewer than two tokens.
    ShortHeader,
    /// The number of customers is not an integer from 0 to 32766.
    BadNumCustomers,
    /// The capacity is not an `i32`.
    BadCapacity,
    /// There is no line of demands.
    MissingDemands,
}

/// The error of the instance text `b`, if any, checked in this order.
pub open spec fn read_error(b: Seq<u8>) -> Option<InstanceFileError> {
    let ls = lines_of(b);
    if ls.len() == 0 {
        Some(InstanceFileError::Empty)
    } else {
        let h = tokens_of(ls[0]);
        if h.len() < 2 {
            Some(InstanceFileError::ShortHeader)
        } else if int_within(h[0], 0, i16::MAX - 1) is None {
            Some(InstanceFileError::BadNumCustomers)
        } else if int_within(h[1], i32::MIN as int, i32::MAX as int) is None {
            Some(InstanceFileError::BadCapacity)
        } else if ls.len() < 2 {
            Some(InstanceFileError::MissingDemands)
        } else {
            None
        }
    }
}

/// The contents of an instance text.
pub struct InstanceFile {
    /// Number of nodes, the depot included.
    pub num_customers: Node,
    /// Vehicle capacity.
    pub capacity: i32,
    /// Demand of each node (the depot first, with none).
    pub demands: Vec<i32>,
    /// Coordinates of each node.
    pub coords: Vec<(i32, i32)>,
}

/// Appends the pairs of `coord_values(b)` to those of `a`.
pub proof fn lemma_coord_values_append(a: Seq<Seq<u8>>, b: Seq<Seq<u8>>)
    ensures
        coord_values(a + b) == coord_values(a) + coord_values(b),
    decreases b.len(),
{
    if b.len() == 0 {
        assert(a + b =~= a);
        assert(coord_values(b) =~= Seq::<(i32, i32)>::empty());
        assert(coord_values(a) + coord_values(b) =~= coord_values(a));
    } else {
        lemma_coord_values_append(a, b.drop_last());
        assert((a + b).drop_last() =~= a + b.drop_last());
        assert((a + b).last() == b.last());
        let t = tokens_of(b.last());
        if t.len() >= 2 {
            assert(coord_values(a) + coord_values(b) =~= (coord_values(a) + coord_values(b.drop_last())).push(
                (coord_value(t[0]), coord_value(t[1])),
            ));
        }
    }
}

/// Reads an instance text. The number of customers excludes the depot;
/// the result counts it. Demands that do not read as integers are
/// skipped, and missing demands are 0; coordinates that do not read as
/// integers are 0, lines with fewer than two tokens are skipped, only as
/// many pairs as there are nodes are kept, and missing pairs are `(0, 0)`.
pub fn parse_instance(b: &[u8]) -> (r: Result<InstanceFile, InstanceFileError>)
    ensures
        match r {
            Err(e) => read_error(b@) == Some(e),
            Ok(f) => {
                let ls = lines_of(b@);
                let h = tokens_of(ls[0]);
                let n = int_within(h[0], 0, i16::MAX - 1)->0 + 1;
                let all = coord_values(ls.skip(2));
                &&& read_error(b@) is None
                &&& f.num_customers == n
                &&& f.capacity == int_within(h[1], i32::MIN as int, i32::MAX as int)->0
                &&& f.demands@ == padded(seq![0i32] + demand_values(tokens_of(ls[1])), n, 0i32)
                &&& f.coords@ == padded(
                    if all.len() > n {
                        all.take(n)
                    } else {
                        all
                    },
                    n,
                    (0i32, 0i32),
                )
            },
        },
{
    let lines = split_lines(b);
    let ghost ls = lines_of(b@);
    if lines.len() == 0 {
        return Err(InstanceFileError::Empty);
    }
    let header = split_tokens(lines[0].as_slice());
    proof {
        assert(lines@[0]@ == ls[0]);
    }
    if header.len() < 2 {
        return Err(InstanceFileError::ShortHeader);
    }
    assert(header@[0]@ == tokens_of(ls[0])[0]);
    assert(header@[1]@ == tokens_of(ls[0])[1]);
    let n0 = match parse_int(header[0].as_slice(), 0, 32766) {
        Some(v) => v,
        None => {
            return Err(InstanceFileError::BadNumCustomers);
        },
    };
    let capacity = match parse_int(header[1].as_slice(), i32::MIN as i64, i32::MAX as i64) {
        Some(v) => v as i32,
        None => {
            return Err(InstanceFileError::BadCapacity);
        },
    };
    if lines.len() < 2 {
        return Err(InstanceFileError::MissingDemands);
    }
    let num: usize = (n0 + 1) as usize;
    let dtoks = split_tokens(lines[1].as_slice());
    proof {
        assert(lines@[1]@ == ls[1]);
    }
    let ghost dt = tokens_of(ls[1]);
    let mut demands: Vec<i32> = Vec::new();
    demands.push(0);
    let mut k: usize = 0;
    while k < dtoks.len()
        invariant
            k <= dtoks@.len(),
            dtoks@.len() == dt.len(),
            forall|i: int| 0 <= i < dtoks@.len() ==> (#[trigger] dtoks@[i])@ == dt[i],
            demands@ == seq![0i32] + demand_values(dt.take(k as int)),
        decreases dtoks@.len() - k,
    {
        let v = parse_int(dtoks[k].as_slice(), i32::MIN as i64, i32::MAX as i64);
        proof {
            assert(dt.take(k + 1).drop_last() =~= dt.take(k as int));
            assert(dt.take(k + 1).last() == dtoks@[k as int]@);
        }
        match v {
            Some(d) => {
                demands.push(d as i32);
                assert(demands@ =~= seq![0i32] + demand_values(dt.take(k + 1)));
            },
            None => {
                assert(demands@ =~= seq![0i32] + demand_values(dt.take(k + 1)));
            },
        }
        k = k + 1;
    }
    proof {
        assert(dt.take(k as int) =~= dt);
    }
    let ghost base = demands@;
    while demands.len() < num
        invariant
            base.len() <= num ==> demands@ == base + Seq::new((demands@.len() - base.len()) as nat, |i: int| 0i32),
            base.len() > num ==> demands@ == base,
            demands@.len() >= base.len(),
            base.len() <= num ==> demands@.len() <= num,
        decreases num - demands@.len(),
    {
        demands.push(0);
        assert(demands@ =~= base + Seq::new((demands@.len() - base.len()) as nat, |i: int| 0i32));
    }
    proof {
        if base.len() <= num {
            assert(demands@ =~= padded(base, num as int, 0i32));
        }
    }
    let ghost rest = ls.skip(2);
    let mut coords: Vec<(i32, i32)> = Vec::new();
    let mut j: usize = 2;
    while j < lines.len() && coords.len() < num
        invariant
            2 <= j <= lines@.len(),
            lines@.len() == ls.len(),
            forall|i: int| 0 <= i < lines@.len() ==> (#[trigger] lines@[i])@ == ls[i],
            rest == ls.skip(2),
            coords@ == coord_values(ls.subrange(2, j as int)),
            coords@.len() <= num,
        decreases lines@.len() - j,
    {
        let toks = split_tokens(lines[j].as_slice());
        proof {
            assert(ls.subrange(2, j + 1).drop_last() =~= ls.subrange(2, j as int));
            assert(ls.subrange(2, j + 1).last() == lines@[j as int]@);
        }
        if toks.len() >= 2 {
            let x = match parse_int(toks[0].as_slice(), i32::MIN as i64, i32::MAX as i64) {
                Some(v) => v as i32,
                None => 0,
            };
            let y = match parse_int(toks[1].as_slice(), i32::MIN as i64, i32::MAX as i64) {
                Some(v) => v as i32,
                None => 0,
            };
            coords.push((x, y));
        }
        assert(coords@ =~= coord_values(ls.subrange(2, j + 1)));
        j = j + 1;
    }
    let ghost firsts = coords@;
    proof {
        let all = coord_values(rest);
        assert(rest =~= ls.subrange(2, j as int) + ls.subrange(j as int, ls.len() as int));
        lemma_coord_values_append(ls.subrange(2, j as int), ls.subrange(j as int, ls.len() as int));
        if j == lines.len() {
            assert(ls.subrange(j as int, ls.len() as int) =~= Seq::<Seq<u8>>::empty());
            assert(all =~= firsts);
        } else {
            assert(firsts.len() == num);
            assert(all.take(num as int) =~= firsts);
        }
    }
    while coords.len() < num
        invariant
            firsts.len() <= num,
            coords@ == firsts + Seq::new((coords@.len() - firsts.len()) as nat, |i: int| (0i32, 0i32)),
            coords@.len() <= num,
        decreases num - coords@.len(),
    {
        coords.push((0, 0));
        assert(coords@ =~= firsts + Seq::new((coords@.len() - firsts.len()) as nat, |i: int| (0i32, 0i32)));
    }
    proof {
        assert(coords@ =~= padded(firsts, num as int, (0i32, 0i32)));
    }
    Ok(InstanceFile { num_customers: num as Node, capacity, demands, coords })
}

} // verus!
