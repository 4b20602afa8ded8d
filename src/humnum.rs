//! The human-numeric order of two lines: its definition, its laws, and the
//! comparison that computes it.

use vstd::prelude::*;

use core::cmp::Ordering;

use crate::args::Mode;
use crate::numeric::{is_digit, number_value, parse_number, MINUS, NINE, UPPER_A, ZERO};
use vstd::slice::slice_subrange;

verus! {

/// ASCII `Z`; a lower-case letter lies `CASE_OFFSET` above its upper-case form.
pub const UPPER_Z: u8 = 90;
pub const CASE_OFFSET: u8 = 32;

/// The first index from `i` on, below both lengths, at which `a` and `b` differ.
pub open spec fn mismatch_from(a: Seq<u8>, b: Seq<u8>, i: nat) -> Option<nat>
    decreases a.len() - i,
{
    if i < a.len() && i < b.len() {
        if a[i as int] != b[i as int] {
            Some(i)
        } else {
            mismatch_from(a, b, i + 1)
        }
    } else {
        None
    }
}

/// The first index at which `a` and `b` differ; `None` where one is a prefix of the other.
pub open spec fn mismatch(a: Seq<u8>, b: Seq<u8>) -> Option<nat> {
    mismatch_from(a, b, 0)
}

/// Start of the run of bytes ending just before `i` whose digit test gives `digit`
/// (`i` itself where the byte before `i` fails it).
pub open spec fn run_start(s: Seq<u8>, i: nat, digit: bool) -> nat
    decreases i,
{
    if 0 < i <= s.len() && is_digit(s[i - 1]) == digit {
        run_start(s, (i - 1) as nat, digit)
    } else {
        i
    }
}

/// The first index from `i` on whose byte fails the digit test `digit`, or the length.
pub open spec fn scan_right(s: Seq<u8>, i: nat, digit: bool) -> nat
    decreases s.len() - i,
{
    if i < s.len() && is_digit(s[i as int]) == digit {
        scan_right(s, i + 1, digit)
    } else {
        i
    }
}

/// Last index of the run from `d` whose digit test gives `digit`, or `d` where `s[d]` fails it.
pub open spec fn run_end(s: Seq<u8>, d: nat, digit: bool) -> nat {
    if d < s.len() && is_digit(s[d as int]) == digit {
        (scan_right(s, d, digit) - 1) as nat
    } else {
        d
    }
}

/// ASCII lower case of one byte.
pub open spec fn fold_case(c: u8) -> u8 {
    if UPPER_A <= c <= UPPER_Z {
        (c + CASE_OFFSET) as u8
    } else {
        c
    }
}

/// `s`, with ASCII letters folded to lower case where `insensitive` holds.
pub open spec fn fold(s: Seq<u8>, insensitive: bool) -> Seq<u8> {
    if insensitive {
        s.map_values(|c: u8| fold_case(c))
    } else {
        s
    }
}

/// Lexicographic order of byte strings by unsigned byte value; a proper prefix comes first.
pub open spec fn lex_cmp(x: Seq<u8>, y: Seq<u8>) -> Ordering
    decreases x.len(),
{
    if x.len() == 0 {
        if y.len() == 0 {
            Ordering::Equal
        } else {
            Ordering::Less
        }
    } else if y.len() == 0 {
        Ordering::Greater
    } else if x[0] < y[0] {
        Ordering::Less
    } else if x[0] > y[0] {
        Ordering::Greater
    } else {
        lex_cmp(x.skip(1), y.skip(1))
    }
}

/// The order of two integers.
pub open spec fn int_cmp(x: int, y: int) -> Ordering {
    if x < y {
        Ordering::Less
    } else if x > y {
        Ordering::Greater
    } else {
        Ordering::Equal
    }
}

/// The text of the number whose digit run is `[beg, fin]`: one `-` before it
/// joins it where `mode` reads signs, and the run's last byte is left out where
/// it is the last byte of `s`.
pub open spec fn number_text(s: Seq<u8>, beg: nat, fin: nat, mode: Mode) -> Seq<u8> {
    let b = if mode.sort_negatives() && beg >= 1 && s[beg - 1] == MINUS {
        beg - 1
    } else {
        beg as int
    };
    if fin + 1 != s.len() {
        s.subrange(b, fin + 1 as int)
    } else {
        s.subrange(b, fin as int)
    }
}

/// Whether the mismatch at `d` is taken as numeric: the run of digits anchored
/// at `d` starts with a digit in both buffers.
pub open spec fn numeric_at(a: Seq<u8>, b: Seq<u8>, d: nat) -> bool {
    is_digit(a[run_start(a, d, true) as int]) && is_digit(b[run_start(b, d, true) as int])
}

/// How the non-digit runs anchored at `d` compare.
pub open spec fn literal_cmp(a: Seq<u8>, b: Seq<u8>, d: nat, mode: Mode) -> Ordering {
    lex_cmp(
        fold(a.subrange(run_start(a, d, false) as int, run_end(a, d, false) + 1 as int), mode.insensitive()),
        fold(b.subrange(run_start(b, d, false) as int, run_end(b, d, false) + 1 as int), mode.insensitive()),
    )
}

/// How the numbers anchored at `d` compare.
pub open spec fn numeric_cmp(a: Seq<u8>, b: Seq<u8>, d: nat, mode: Mode) -> Ordering {
    int_cmp(
        number_value(number_text(a, run_start(a, d, true), run_end(a, d, true), mode), mode),
        number_value(number_text(b, run_start(b, d, true), run_end(b, d, true), mode), mode),
    )
}

/// Human-numeric order of two lines. At the first mismatch, either the numbers
/// there or the non-digit runs there are compared; where they tie, the order
/// is that of what follows the two runs. Lines where one is a prefix of the
/// other are equal.
pub open spec fn humnum_order(a: Seq<u8>, b: Seq<u8>, mode: Mode) -> Ordering
    decreases a.len(),
    via humnum_order_decreases
{
    match mismatch(a, b) {
        None => Ordering::Equal,
        Some(d) => {
            let digit = numeric_at(a, b, d);
            let c = if digit {
                numeric_cmp(a, b, d, mode)
            } else {
                literal_cmp(a, b, d, mode)
            };
            if c != Ordering::Equal {
                c
            } else {
                humnum_order(
                    a.subrange(run_end(a, d, digit) + 1 as int, a.len() as int),
                    b.subrange(run_end(b, d, digit) + 1 as int, b.len() as int),
                    mode,
                )
            }
        },
    }
}

#[via_fn]
proof fn humnum_order_decreases(a: Seq<u8>, b: Seq<u8>, mode: Mode) {
    lemma_mismatch(a, b, 0);
    if let Some(d) = mismatch(a, b) {
        lemma_run_end(a, d, true);
        lemma_run_end(a, d, false);
    }
}

pub proof fn lemma_mismatch(a: Seq<u8>, b: Seq<u8>, i: nat)
    ensures
        mismatch_from(a, b, i) matches Some(d) ==> i <= d < a.len() && d < b.len() && a[d as int]
            != b[d as int],
    decreases a.len() - i,
{
    if i < a.len() && i < b.len() && a[i as int] == b[i as int] {
        lemma_mismatch(a, b, i + 1);
    }
}

pub proof fn lemma_scan_right(s: Seq<u8>, i: nat, digit: bool)
    requires
        i <= s.len(),
    ensures
        i <= scan_right(s, i, digit) <= s.len(),
        forall|k: int| i <= k < scan_right(s, i, digit) ==> is_digit(#[trigger] s[k]) == digit,
    decreases s.len() - i,
{
    if i < s.len() && is_digit(s[i as int]) == digit {
        lemma_scan_right(s, i + 1, digit);
    }
}

pub proof fn lemma_run_end(s: Seq<u8>, d: nat, digit: bool)
    requires
        d < s.len(),
    ensures
        d <= run_end(s, d, digit) < s.len(),
{
    lemma_scan_right(s, d + 1, digit);
}

pub proof fn lemma_run_start(s: Seq<u8>, i: nat, digit: bool)
    ensures
        run_start(s, i, digit) <= i,
    decreases i,
{
    if 0 < i <= s.len() && is_digit(s[i - 1]) == digit {
        lemma_run_start(s, (i - 1) as nat, digit);
    }
}

fn is_digit_byte(c: u8) -> (r: bool)
    ensures
        r == is_digit(c),
{
    ZERO <= c && c <= NINE
}

fn fold_byte(c: u8, insensitive: bool) -> (r: u8)
    ensures
        r == (if insensitive { fold_case(c) } else { c }),
{
    if insensitive && UPPER_A <= c && c <= UPPER_Z {
        c + CASE_OFFSET
    } else {
        c
    }
}

fn find_mismatch(a: &[u8], b: &[u8]) -> (r: Option<usize>)
    ensures
        r matches Some(d) ==> mismatch(a@, b@) == Some(d as nat),
        r is None ==> mismatch(a@, b@) is None,
{
    let n = if a.len() < b.len() {
        a.len()
    } else {
        b.len()
    };
    let mut i: usize = 0;
    while i < n
        invariant
            i <= n,
            n <= a@.len(),
            n <= b@.len(),
            n == a@.len() || n == b@.len(),
            mismatch(a@, b@) == mismatch_from(a@, b@, i as nat),
        decreases n - i,
    {
        if a[i] != b[i] {
            return Some(i);
        }
        i += 1;
    }
    None
}

fn find_run_start(s: &[u8], d: usize, digit: bool) -> (r: usize)
    requires
        d <= s@.len(),
    ensures
        r == run_start(s@, d as nat, digit),
{
    let mut i = d;
    while i > 0 && is_digit_byte(s[i - 1]) == digit
        invariant
            i <= d,
            d <= s@.len(),
            run_start(s@, d as nat, digit) == run_start(s@, i as nat, digit),
        decreases i,
    {
        i -= 1;
    }
    i
}

fn find_run_end(s: &[u8], d: usize, digit: bool) -> (r: usize)
    requires
        d < s@.len(),
    ensures
        r == run_end(s@, d as nat, digit),
{
    if is_digit_byte(s[d]) != digit {
        return d;
    }
    let mut i = d + 1;
    while i < s.len() && is_digit_byte(s[i]) == digit
        invariant
            d < i <= s@.len(),
            scan_right(s@, d as nat, digit) == scan_right(s@, i as nat, digit),
        decreases s@.len() - i,
    {
        i += 1;
    }
    i - 1
}

/// Compares two byte strings lexicographically, folding ASCII case first
/// where `insensitive` holds.
pub fn compare_text(x: &[u8], y: &[u8], insensitive: bool) -> (r: Ordering)
    ensures
        r == lex_cmp(fold(x@, insensitive), fold(y@, insensitive)),
{
    let ghost fx = fold(x@, insensitive);
    let ghost fy = fold(y@, insensitive);
    let mut i: usize = 0;
    proof {
        assert(fx.skip(0) =~= fx);
        assert(fy.skip(0) =~= fy);
    }
    while i < x.len() && i < y.len()
        invariant
            i <= x@.len(),
            i <= y@.len(),
            fx == fold(x@, insensitive),
            fy == fold(y@, insensitive),
            fx.len() == x@.len(),
            fy.len() == y@.len(),
            forall|k: int| 0 <= k < x@.len() ==> fx[k] == (if insensitive { fold_case(x@[k]) } else { x@[k] }),
            forall|k: int| 0 <= k < y@.len() ==> fy[k] == (if insensitive { fold_case(y@[k]) } else { y@[k] }),
            lex_cmp(fx, fy) == lex_cmp(fx.skip(i as int), fy.skip(i as int)),
        decreases x@.len() - i,
    {
        let cx = fold_byte(x[i], insensitive);
        let cy = fold_byte(y[i], insensitive);
        proof {
            assert(fx.skip(i as int).len() > 0 && fy.skip(i as int).len() > 0);
            assert(fx.skip(i as int)[0] == cx);
            assert(fy.skip(i as int)[0] == cy);
            assert(fx.skip(i as int).skip(1) =~= fx.skip(i + 1));
            assert(fy.skip(i as int).skip(1) =~= fy.skip(i + 1));
        }
        if cx < cy {
            assert(lex_cmp(fx.skip(i as int), fy.skip(i as int)) == Ordering::Less);
            return Ordering::Less;
        }
        if cx > cy {
            assert(lex_cmp(fx.skip(i as int), fy.skip(i as int)) == Ordering::Greater);
            return Ordering::Greater;
        }
        i += 1;
    }
    if i < x.len() {
        Ordering::Greater
    } else if i < y.len() {
        Ordering::Less
    } else {
        Ordering::Equal
    }
}

fn number_slice<'a>(s: &'a [u8], beg: usize, fin: usize, mode: Mode) -> (r: &'a [u8])
    requires
        beg <= fin < s@.len(),
    ensures
        r@ == number_text(s@, beg as nat, fin as nat, mode),
{
    let b = if mode.sort_negatives() && beg >= 1 && s[beg - 1] == MINUS {
        beg - 1
    } else {
        beg
    };
    if fin != s.len() - 1 {
        slice_subrange(s, b, fin + 1)
    } else {
        slice_subrange(s, b, fin)
    }
}

/// Compares two lines in human-numeric order under `mode`.
pub fn compare_lines(a: &[u8], b: &[u8], mode: Mode) -> (r: Ordering)
    ensures
        r == humnum_order(a@, b@, mode),
{
    let mut x = a;
    let mut y = b;
    loop
        invariant
            humnum_order(x@, y@, mode) == humnum_order(a@, b@, mode),
        decreases x@.len(),
    {
        let d = match find_mismatch(x, y) {
            None => return Ordering::Equal,
            Some(d) => d,
        };
        proof {
            lemma_mismatch(x@, y@, 0);
            lemma_run_start(x@, d as nat, true);
            lemma_run_start(y@, d as nat, true);
            lemma_run_start(x@, d as nat, false);
            lemma_run_start(y@, d as nat, false);
            lemma_run_end(x@, d as nat, true);
            lemma_run_end(y@, d as nat, true);
            lemma_run_end(x@, d as nat, false);
            lemma_run_end(y@, d as nat, false);
        }
        let xs = find_run_start(x, d, true);
        let ys = find_run_start(y, d, true);
        let digit = is_digit_byte(x[xs]) && is_digit_byte(y[ys]);
        let c: Ordering;
        let xe: usize;
        let ye: usize;
        if digit {
            xe = find_run_end(x, d, true);
            ye = find_run_end(y, d, true);
            let xv = parse_number(number_slice(x, xs, xe, mode), mode);
            let yv = parse_number(number_slice(y, ys, ye, mode), mode);
            c = if xv < yv {
                Ordering::Less
            } else if xv > yv {
                Ordering::Greater
            } else {
                Ordering::Equal
            };
        } else {
            let xlen = x.len();
            let ylen = y.len();
            let xb = find_run_start(x, d, false);
            let yb = find_run_start(y, d, false);
            xe = find_run_end(x, d, false);
            ye = find_run_end(y, d, false);
            c = compare_text(
                slice_subrange(x, xb, xe + 1),
                slice_subrange(y, yb, ye + 1),
                mode.insensitive(),
            );
        }
        match c {
            Ordering::Equal => {},
            _ => return c,
        }
        x = slice_subrange(x, xe + 1, x.len());
        y = slice_subrange(y, ye + 1, y.len());
    }
}

/// `o` read from the other side.
pub open spec fn flip(o: Ordering) -> Ordering {
    match o {
        Ordering::Less => Ordering::Greater,
        Ordering::Equal => Ordering::Equal,
        Ordering::Greater => Ordering::Less,
    }
}

proof fn lemma_mismatch_self(a: Seq<u8>, i: nat)
    ensures
        mismatch_from(a, a, i) is None,
    decreases a.len() - i,
{
    if i < a.len() {
        lemma_mismatch_self(a, i + 1);
    }
}

proof fn lemma_mismatch_swap(a: Seq<u8>, b: Seq<u8>, i: nat)
    ensures
        mismatch_from(a, b, i) == mismatch_from(b, a, i),
    decreases a.len() - i,
{
    if i < a.len() && i < b.len() && a[i as int] == b[i as int] {
        lemma_mismatch_swap(a, b, i + 1);
    }
}

proof fn lemma_lex_swap(x: Seq<u8>, y: Seq<u8>)
    ensures
        lex_cmp(y, x) == flip(lex_cmp(x, y)),
    decreases x.len(),
{
    if x.len() > 0 && y.len() > 0 && x[0] == y[0] {
        lemma_lex_swap(x.skip(1), y.skip(1));
    }
}

/// Every line is equal to itself.
pub proof fn lemma_reflexive(x: Seq<u8>, mode: Mode)
    ensures
        humnum_order(x, x, mode) == Ordering::Equal,
{
    lemma_mismatch_self(x, 0);
}

/// Comparing the other way round gives the opposite answer.
pub proof fn lemma_antisymmetric(a: Seq<u8>, b: Seq<u8>, mode: Mode)
    ensures
        humnum_order(b, a, mode) == flip(humnum_order(a, b, mode)),
    decreases a.len(),
{
    lemma_mismatch_swap(a, b, 0);
    lemma_mismatch(a, b, 0);
    if let Some(d) = mismatch(a, b) {
        lemma_run_end(a, d, true);
        lemma_run_end(a, d, false);
        lemma_lex_swap(
            fold(a.subrange(run_start(a, d, false) as int, run_end(a, d, false) + 1 as int), mode.insensitive()),
            fold(b.subrange(run_start(b, d, false) as int, run_end(b, d, false) + 1 as int), mode.insensitive()),
        );
        let digit = numeric_at(a, b, d);
        lemma_antisymmetric(
            a.subrange(run_end(a, d, digit) + 1 as int, a.len() as int),
            b.subrange(run_end(b, d, digit) + 1 as int, b.len() as int),
            mode,
        );
    }
}

/// A line of input, borrowed from the buffer it was read into, with the mode
/// it is compared in.
#[derive(Clone, Copy)]
pub struct HumanNumericLine<'a> {
    pub buf: &'a [u8],
    pub mode: Mode,
}

impl<'a> HumanNumericLine<'a> {
    pub fn new(buf: &'a [u8], mode: Mode) -> (r: HumanNumericLine<'a>)
        ensures
            r.buf@ == buf@,
            r.mode == mode,
    {
        HumanNumericLine { buf, mode }
    }

    /// The bytes of the line, terminator included.
    pub fn as_ref(&self) -> (r: &'a [u8])
        ensures
            r@ == self.buf@,
    {
        self.buf
    }

    /// Human-numeric order of this line against `other`, in this line's mode.
    pub fn humnum_compare(&self, other: &Self) -> (r: Ordering)
        ensures
            r == humnum_order(self.buf@, other.buf@, self.mode),
    {
        compare_lines(self.buf, other.buf, self.mode)
    }
}

impl<'a> PartialEq for HumanNumericLine<'a> {
    /// Lines are equal where they compare equal in the left line's mode.
    fn eq(&self, other: &Self) -> (r: bool) {
        match self.humnum_compare(other) {
            Ordering::Equal => true,
            _ => false,
        }
    }
}

impl<'a> vstd::std_specs::cmp::PartialEqSpecImpl for HumanNumericLine<'a> {
    open spec fn obeys_eq_spec() -> bool {
        true
    }

    open spec fn eq_spec(&self, other: &Self) -> bool {
        humnum_order(self.buf@, other.buf@, self.mode) == Ordering::Equal
    }
}

impl<'a> PartialOrd for HumanNumericLine<'a> {
    /// Human-numeric order in the left line's mode; always defined.
    fn partial_cmp(&self, other: &Self) -> (r: Option<Ordering>) {
        Some(self.humnum_compare(other))
    }
}

impl<'a> vstd::std_specs::cmp::PartialOrdSpecImpl for HumanNumericLine<'a> {
    open spec fn obeys_partial_cmp_spec() -> bool {
        true
    }

    open spec fn partial_cmp_spec(&self, other: &Self) -> Option<Ordering> {
        Some(humnum_order(self.buf@, other.buf@, self.mode))
    }
}

} // verus!
