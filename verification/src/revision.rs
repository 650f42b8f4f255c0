use crate::object_id::{ascii_chars, is_hex_text};
use crate::order::{PathOrder, order_bytes};
use vstd::prelude::*;
use vstd::slice::{slice_subrange, slice_to_vec};

verus! {

/// One step from a commit to an ancestor.
#[derive(Clone, Copy, Debug, PartialEq, Eq, Structural)]
pub enum Operator {
    /// `^`: the first parent.
    Parent,
    /// `^N`: the parent number N, counted from 1.
    ParentN(u32),
    /// `~N`: the first parent, N times over.
    AncestorN(u32),
}

/// Where a revision expression starts from.
pub enum BaseView {
    /// The literal `HEAD`.
    Head,
    /// The name of a ref.
    Ref(Seq<u8>),
    /// A full or abbreviated object id: 4 to 40 hexadecimal digits.
    ObjectId(Seq<u8>),
}

/// A revision expression: where it starts from, and the steps from there, in
/// the order in which they are written.
pub struct RevisionView {
    pub base: BaseView,
    pub operators: Seq<Operator>,
}

/// Whether the byte starts an operator: `^` or `~`.
pub open spec fn is_operator_byte(b: u8) -> bool {
    b == 0x5e || b == 0x7e
}

/// Whether the byte is a decimal digit.
pub open spec fn is_digit(b: u8) -> bool {
    48 <= b <= 57
}

/// Number of bytes from `from` on that stand before the first operator.
pub open spec fn base_len(text: Seq<u8>, from: int) -> nat
    decreases text.len() - from,
{
    if from < 0 || from >= text.len() || is_operator_byte(text[from]) {
        0
    } else {
        1 + base_len(text, from + 1)
    }
}

/// Number of decimal digits that stand in a row from `from` on.
pub open spec fn digit_count(text: Seq<u8>, from: int) -> nat
    decreases text.len() - from,
{
    if from < 0 || from >= text.len() || !is_digit(text[from]) {
        0
    } else {
        1 + digit_count(text, from + 1)
    }
}

/// The number that a run of decimal digits spells; 0 for the empty run.
pub open spec fn number(digits: Seq<u8>) -> nat
    decreases digits.len(),
{
    if digits.len() == 0 {
        0
    } else {
        (number(digits.drop_last()) * 10 + (digits.last() - 48)) as nat
    }
}

/// The operator that starts with the byte `mark` and carries the digits
/// `digits`: `^` alone, `^N` or `~N`, where N fits 32 bits.
pub open spec fn operator_of(mark: u8, digits: Seq<u8>) -> Option<Operator> {
    if mark == 0x5e && digits.len() == 0 {
        Some(Operator::Parent)
    } else if digits.len() == 0 || number(digits) > u32::MAX {
        None
    } else if mark == 0x5e {
        Some(Operator::ParentN(number(digits) as u32))
    } else if mark == 0x7e {
        Some(Operator::AncestorN(number(digits) as u32))
    } else {
        None
    }
}

/// The operators that stand in `text` from `pos` to the end, if operators fill
/// that range exactly.
pub open spec fn parse_operators(text: Seq<u8>, pos: int) -> Option<Seq<Operator>>
    decreases text.len() - pos,
{
    if pos < 0 || pos >= text.len() {
        Some(Seq::empty())
    } else {
        let count = digit_count(text, pos + 1);
        let end = pos + 1 + count;
        proof {
            lemma_digit_count(text, pos + 1);
        }
        match operator_of(text[pos], text.subrange(pos + 1, end)) {
            None => None,
            Some(op) => match parse_operators(text, end) {
                None => None,
                Some(rest) => Some(seq![op] + rest),
            },
        }
    }
}

/// The text `HEAD`.
pub open spec fn head_text() -> Seq<u8> {
    seq![0x48u8, 0x45u8, 0x41u8, 0x44u8]
}

/// Whether the text looks like an object id: 4 to 40 hexadecimal digits.
pub open spec fn is_hex_looking(base: Seq<u8>) -> bool {
    4 <= base.len() <= 40 && is_hex_text(ascii_chars(base))
}

/// What a base stands for: nothing if it is empty, `HEAD`, an object id if it
/// looks like one, else the name of a ref.
pub open spec fn classify_base(base: Seq<u8>) -> Option<BaseView> {
    if base.len() == 0 {
        None
    } else if base == head_text() {
        Some(BaseView::Head)
    } else if is_hex_looking(base) {
        Some(BaseView::ObjectId(base))
    } else {
        Some(BaseView::Ref(base))
    }
}

/// The revision expression that a text spells: a base, which runs up to the
/// first `^` or `~`, and then operators to the end. `None` where the text
/// spells none.
pub open spec fn parse_revision(text: Seq<u8>) -> Option<RevisionView> {
    let end = base_len(text, 0) as int;
    match classify_base(text.subrange(0, end)) {
        None => None,
        Some(base) => match parse_operators(text, end) {
            None => None,
            Some(operators) => Some(RevisionView { base, operators }),
        },
    }
}

/// The base ends within the text, and holds no operator byte.
pub proof fn lemma_base_len(text: Seq<u8>, from: int)
    requires
        0 <= from <= text.len(),
    ensures
        from + base_len(text, from) <= text.len(),
        forall|k: int| from <= k < from + base_len(text, from) ==> !is_operator_byte(text[k]),
        from + base_len(text, from) < text.len() ==> is_operator_byte(
            text[from + base_len(text, from)],
        ),
    decreases text.len() - from,
{
    if from < text.len() && !is_operator_byte(text[from]) {
        lemma_base_len(text, from + 1);
    }
}

/// The digits end within the text, and all of them are digits.
pub proof fn lemma_digit_count(text: Seq<u8>, from: int)
    requires
        0 <= from <= text.len(),
    ensures
        from + digit_count(text, from) <= text.len(),
        forall|k: int| from <= k < from + digit_count(text, from) ==> is_digit(text[k]),
        from + digit_count(text, from) < text.len() ==> !is_digit(
            text[from + digit_count(text, from)],
        ),
    decreases text.len() - from,
{
    if from < text.len() && is_digit(text[from]) {
        lemma_digit_count(text, from + 1);
    }
}

proof fn lemma_count_from_run(text: Seq<u8>, from: int, end: int)
    requires
        0 <= from <= end <= text.len(),
        forall|k: int| from <= k < end ==> is_digit(text[k]),
        end < text.len() ==> !is_digit(text[end]),
    ensures
        digit_count(text, from) == end - from,
    decreases end - from,
{
    if from < end {
        lemma_count_from_run(text, from + 1, end);
    }
}

proof fn lemma_base_from_run(text: Seq<u8>, from: int, end: int)
    requires
        0 <= from <= end <= text.len(),
        forall|k: int| from <= k < end ==> !is_operator_byte(text[k]),
        end < text.len() ==> is_operator_byte(text[end]),
    ensures
        base_len(text, from) == end - from,
    decreases end - from,
{
    if from < end {
        lemma_base_from_run(text, from + 1, end);
    }
}

proof fn lemma_number_grows(digits: Seq<u8>, k: int)
    requires
        0 <= k <= digits.len(),
        forall|j: int| 0 <= j < digits.len() ==> is_digit(digits[j]),
    ensures
        number(digits.subrange(0, k)) <= number(digits),
    decreases digits.len() - k,
{
    if k < digits.len() {
        let longer = digits.subrange(0, k + 1);
        assert(longer.drop_last() =~= digits.subrange(0, k));
        assert(number(digits.subrange(0, k)) <= number(longer)) by (nonlinear_arith)
            requires
                number(longer) == number(digits.subrange(0, k)) * 10 + (longer.last() - 48),
                longer.last() >= 48,
        ;
        lemma_number_grows(digits, k + 1);
    } else {
        assert(digits.subrange(0, k) =~= digits);
    }
}

/// Where a revision expression starts from.
#[derive(Debug)]
pub enum Base {
    /// The literal `HEAD`.
    Head,
    /// The name of a ref.
    Ref(Vec<u8>),
    /// A full or abbreviated object id: 4 to 40 hexadecimal digits.
    ObjectId(Vec<u8>),
}

impl View for Base {
    type V = BaseView;

    open spec fn view(&self) -> BaseView {
        match self {
            Base::Head => BaseView::Head,
            Base::Ref(name) => BaseView::Ref(name@),
            Base::ObjectId(digits) => BaseView::ObjectId(digits@),
        }
    }
}

/// A parsed revision expression.
#[derive(Debug)]
pub struct RevisionExpression {
    pub base: Base,
    pub operators: Vec<Operator>,
}

impl View for RevisionExpression {
    type V = RevisionView;

    open spec fn view(&self) -> RevisionView {
        RevisionView { base: self.base@, operators: self.operators@ }
    }
}

fn hex_byte(b: u8) -> (r: bool)
    ensures
        r == (crate::object_id::hex_value(b as char) is Some),
{
    (48 <= b && b <= 57) || (97 <= b && b <= 102) || (65 <= b && b <= 70)
}

fn looks_like_id(base: &[u8]) -> (r: bool)
    ensures
        r == is_hex_looking(base@),
{
    if base.len() < 4 || base.len() > 40 {
        return false;
    }
    let mut k: usize = 0;
    while k < base.len()
        invariant
            k <= base@.len(),
            forall|j: int|
                0 <= j < k ==> (#[trigger] crate::object_id::hex_value(ascii_chars(base@)[j]))
                    is Some,
        decreases base@.len() - k,
    {
        if !hex_byte(base[k]) {
            assert(crate::object_id::hex_value(ascii_chars(base@)[k as int]) is None);
            return false;
        }
        k += 1;
    }
    true
}

fn classify(base: &[u8]) -> (r: Option<Base>)
    ensures
        match r {
            Some(b) => classify_base(base@) == Some(b@),
            None => classify_base(base@) is None,
        },
{
    if base.len() == 0 {
        return None;
    }
    let mut head: Vec<u8> = Vec::new();
    head.push(0x48u8);
    head.push(0x45u8);
    head.push(0x41u8);
    head.push(0x44u8);
    assert(head@ =~= head_text());
    match order_bytes(base, head.as_slice()) {
        PathOrder::Same => {
            return Some(Base::Head);
        },
        _ => {},
    }
    if looks_like_id(base) {
        Some(Base::ObjectId(slice_to_vec(base)))
    } else {
        Some(Base::Ref(slice_to_vec(base)))
    }
}

/// Reads the number that the digits of `text` from `from` to `end` spell, if it
/// fits 32 bits.
fn read_number(text: &[u8], from: usize, end: usize) -> (r: Option<u32>)
    requires
        from <= end <= text@.len(),
        forall|k: int| from <= k < end ==> is_digit(text@[k]),
    ensures
        match r {
            Some(n) => number(text@.subrange(from as int, end as int)) == n,
            None => number(text@.subrange(from as int, end as int)) > u32::MAX,
        },
{
    let ghost digits = text@.subrange(from as int, end as int);
    let mut value: u64 = 0;
    let mut k: usize = from;
    assert(digits.subrange(0, 0) =~= Seq::<u8>::empty());
    while k < end
        invariant
            from <= k <= end <= text@.len(),
            digits == text@.subrange(from as int, end as int),
            forall|j: int| from <= j < end ==> is_digit(text@[j]),
            value <= u32::MAX,
            value == number(digits.subrange(0, k - from)),
        decreases end - k,
    {
        let digit = (text[k] - 48) as u64;
        let next = value * 10 + digit;
        proof {
            let longer = digits.subrange(0, k + 1 - from);
            assert(longer.drop_last() =~= digits.subrange(0, k - from));
            assert(longer.last() == text@[k as int]);
            assert(next == number(longer));
            if next > u32::MAX {
                lemma_number_grows(digits, k + 1 - from);
            }
        }
        if next > 0xffff_ffff {
            return None;
        }
        value = next;
        k += 1;
    }
    assert(digits.subrange(0, end - from) =~= digits);
    Some(value as u32)
}

/// Reads a revision expression. `None` where the text spells none: where the
/// base is empty, where an operator is neither `^`, `^N` nor `~N`, or where N
/// does not fit 32 bits.
pub fn parse(text: &[u8]) -> (r: Option<RevisionExpression>)
    ensures
        match r {
            Some(e) => parse_revision(text@) == Some(e@),
            None => parse_revision(text@) is None,
        },
{
    let n = text.len();
    let mut end: usize = 0;
    while end < n && text[end] != 0x5e && text[end] != 0x7e
        invariant
            end <= n,
            n == text@.len(),
            forall|k: int| 0 <= k < end ==> !is_operator_byte(text@[k]),
        decreases n - end,
    {
        end += 1;
    }
    proof {
        lemma_base_from_run(text@, 0, end as int);
    }
    let base = match classify(slice_subrange(text, 0, end)) {
        Some(base) => base,
        None => {
            return None;
        },
    };
    let mut operators: Vec<Operator> = Vec::new();
    let mut pos: usize = end;
    while pos < n
        invariant
            end <= pos <= n,
            n == text@.len(),
            base_len(text@, 0) == end,
            classify_base(text@.subrange(0, end as int)) == Some(base@),
            parse_operators(text@, end as int) == match parse_operators(text@, pos as int) {
                Some(rest) => Some(operators@ + rest),
                None => None,
            },
        decreases n - pos,
    {
        let mark = text[pos];
        let mut stop: usize = pos + 1;
        while stop < n && 48 <= text[stop] && text[stop] <= 57
            invariant
                pos + 1 <= stop <= n,
                n == text@.len(),
                forall|k: int| pos + 1 <= k < stop ==> is_digit(text@[k]),
            decreases n - stop,
        {
            stop += 1;
        }
        proof {
            lemma_count_from_run(text@, pos + 1, stop as int);
        }
        let op = if mark == 0x5e && stop == pos + 1 {
            Operator::Parent
        } else if stop == pos + 1 {
            return None;
        } else {
            match read_number(text, pos + 1, stop) {
                None => {
                    return None;
                },
                Some(count) => {
                    if mark == 0x5e {
                        Operator::ParentN(count)
                    } else if mark == 0x7e {
                        Operator::AncestorN(count)
                    } else {
                        return None;
                    }
                },
            }
        };
        proof {
            match parse_operators(text@, stop as int) {
                Some(rest) => {
                    assert(operators@ + (seq![op] + rest) =~= operators@.push(op) + rest);
                },
                None => {},
            }
        }
        operators.push(op);
        pos = stop;
    }
    assert(operators@ + Seq::<Operator>::empty() =~= operators@);
    Some(RevisionExpression { base, operators })
}

} // verus!
