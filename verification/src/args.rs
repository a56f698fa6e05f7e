//! The two command-line operands: the source path and the memory size.

use vstd::prelude::*;

verus! {

/// The operands of one invocation.
pub struct Args {
    /// Where the source program is to be read from.
    pub path: String,
    /// The number of memory cells.
    pub memory_size: usize,
}

/// The mathematical value of an `Args`.
pub struct ArgsView {
    /// The path, as text.
    pub path: Seq<char>,
    /// The number of memory cells.
    pub memory_size: usize,
}

impl View for Args {
    type V = ArgsView;

    open spec fn view(&self) -> ArgsView {
        ArgsView { path: self.path@, memory_size: self.memory_size }
    }
}

/// Whether a character is one of `0` to `9`.
pub open spec fn is_digit(c: char) -> bool {
    '0' <= c <= '9'
}

/// Whether a text consists of digits only.
pub open spec fn all_digits(text: Seq<char>) -> bool {
    forall|i: int| 0 <= i < text.len() ==> is_digit(#[trigger] text[i])
}

/// The number that a text of digits denotes in base ten.
pub open spec fn digits_value(digits: Seq<char>) -> nat
    decreases digits.len(),
{
    if digits.len() == 0 {
        0
    } else {
        (digits_value(digits.drop_last()) * 10 + (digits.last() as nat - '0' as nat)) as nat
    }
}

/// A text without its leading `+`, if it has one.
pub open spec fn unsigned_part(text: Seq<char>) -> Seq<char> {
    if text.len() > 0 && text[0] == '+' {
        text.drop_first()
    } else {
        text
    }
}

/// The memory size that a text denotes: an optional `+`, then one or more
/// digits whose value fits the machine word. Any other text denotes none.
pub open spec fn decimal_value(text: Seq<char>) -> Option<usize> {
    let digits = unsigned_part(text);
    if digits.len() > 0 && all_digits(digits) && digits_value(digits) <= usize::MAX {
        Some(digits_value(digits) as usize)
    } else {
        None
    }
}

/// What an argument vector yields: program name, path and memory size, no
/// more and no less, with a memory size that denotes a number.
pub open spec fn args_of(args: Seq<Seq<char>>) -> Option<ArgsView> {
    if args.len() == 3 && decimal_value(args[2]) is Some {
        Some(ArgsView { path: args[1], memory_size: decimal_value(args[2])->Some_0 })
    } else {
        None
    }
}

/// A longer text of digits denotes no smaller a number than its beginning.
proof fn lemma_digits_value_grows(digits: Seq<char>, k: int)
    requires
        0 <= k <= digits.len(),
        all_digits(digits),
    ensures
        digits_value(digits.take(k)) <= digits_value(digits),
    decreases digits.len(),
{
    if k == digits.len() {
        assert(digits.take(k) =~= digits);
    } else {
        assert(digits.drop_last().take(k) =~= digits.take(k));
        assert(is_digit(digits.last()));
        lemma_digits_value_grows(digits.drop_last(), k);
    }
}

/// Reads a memory size written in base ten.
pub fn parse_memory_size(text: &str) -> (size: Option<usize>)
    ensures
        size == decimal_value(text@),
{
    let len = text.unicode_len();
    let mut i: usize = 0;
    if len > 0 && text.get_char(0) == '+' {
        i = 1;
    }
    let start = i;
    let ghost digits = unsigned_part(text@);
    if i == len {
        return None;
    }
    let mut value: usize = 0;
    assert(digits.take(0) =~= Seq::<char>::empty());
    while i < len
        invariant
            start <= i <= len,
            len == text@.len(),
            digits == unsigned_part(text@),
            digits =~= text@.skip(start as int),
            all_digits(digits.take(i - start)),
            value == digits_value(digits.take(i - start)),
        decreases len - i,
    {
        let c = text.get_char(i);
        let ghost seen = digits.take(i - start + 1);
        proof {
            assert(seen.drop_last() =~= digits.take(i - start));
            assert(seen.last() == c);
        }
        if !(c >= '0' && c <= '9') {
            assert(!is_digit(digits[i - start]));
            return None;
        }
        let digit: usize = (c as u32 - '0' as u32) as usize;
        if value > (usize::MAX - digit) / 10 {
            proof {
                assert(digits_value(seen) == value * 10 + digit);
                if all_digits(digits) {
                    lemma_digits_value_grows(digits, i - start + 1);
                }
            }
            return None;
        }
        value = value * 10 + digit;
        i += 1;
    }
    assert(digits.take(i - start) =~= digits);
    Some(value)
}

/// Reads the operands from an argument vector whose first entry is the
/// program's name.
pub fn parse_args(args: Vec<String>) -> (result: Option<Args>)
    ensures
        (match result {
            Some(found) => Some(found@),
            None => None,
        }) == args_of(Seq::new(args@.len(), |i: int| args@[i]@)),
{
    if args.len() != 3 {
        return None;
    }
    match parse_memory_size(args[2].as_str()) {
        Some(memory_size) => Some(Args { path: args[1].clone(), memory_size }),
        None => None,
    }
}

} // verus!
