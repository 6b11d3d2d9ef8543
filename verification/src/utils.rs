//! Name conversions used when deriving identifiers from type names.
use vstd::prelude::*;
use vstd::string::StringSliceAdditionalSpecFns;

verus! {

/// The byte with ASCII upper case letters turned to lower case.
pub open spec fn ascii_lower(b: u8) -> u8 {
    if 65 <= b <= 90 {
        (b + 32) as u8
    } else {
        b
    }
}

/// Whether the byte, read as a Unicode scalar value (U+0000 to U+00FF), is an
/// upper case letter: `A`-`Z`, U+00C0 to U+00D6 and U+00D8 to U+00DE.
pub open spec fn byte_is_uppercase(b: u8) -> bool {
    ||| 65 <= b <= 90
    ||| 0xC0 <= b <= 0xD6
    ||| 0xD8 <= b <= 0xDE
}

pub open spec fn byte_is_digit(b: u8) -> bool {
    48 <= b <= 57
}

/// Whether an underscore goes before byte `i` (for `i > 0`): before an upper
/// case letter, and before the first digit of a run of digits.
pub open spec fn separator_before(bytes: Seq<u8>, i: int) -> bool {
    ||| byte_is_uppercase(bytes[i])
    ||| byte_is_digit(bytes[i]) && !byte_is_digit(bytes[i - 1])
}

/// What byte `i` of the input turns into.
pub open spec fn snake_piece(bytes: Seq<u8>, i: int) -> Seq<char> {
    if i > 0 && separator_before(bytes, i) {
        seq!['_', ascii_lower(bytes[i]) as char]
    } else {
        seq![ascii_lower(bytes[i]) as char]
    }
}

/// The conversion of the first `n` bytes.
pub open spec fn snake_prefix(bytes: Seq<u8>, n: nat) -> Seq<char>
    decreases n,
{
    if n == 0 {
        Seq::empty()
    } else {
        snake_prefix(bytes, (n - 1) as nat) + snake_piece(bytes, n - 1)
    }
}

/// Calls `String::push`: appends the character.
#[verifier::external_body]
fn push_char(s: &mut String, c: char)
    ensures
        final(s)@ == old(s)@.push(c),
{
    s.push(c);
}

/// Converts a type name to snake case: every upper case letter after the first
/// byte, and every run of digits that follows a non-digit, is preceded by an
/// underscore, and ASCII letters are lowered. `"DataGroup"` becomes
/// `"data_group"` and `"A123Sa456"` becomes `"a_123_sa_456"`.
pub fn to_camel_case(s: &str) -> (r: String)
    ensures
        r@ == snake_prefix(s.spec_bytes(), s.spec_bytes().len()),
{
    let bytes = s.as_bytes();
    let mut result = String::new();
    let mut i: usize = 0;
    while i < bytes.len()
        invariant
            bytes@ == s.spec_bytes(),
            i <= bytes@.len(),
            result@ == snake_prefix(bytes@, i as nat),
        decreases bytes@.len() - i,
    {
        let b = bytes[i];
        let lower: u8 = if 65 <= b && b <= 90 {
            b + 32
        } else {
            b
        };
        let upper = (65 <= b && b <= 90) || (0xC0 <= b && b <= 0xD6) || (0xD8 <= b && b <= 0xDE);
        let digit_run_start = 48 <= b && b <= 57 && i > 0 && !(48 <= bytes[i - 1] && bytes[i - 1] <= 57);
        if i > 0 && (upper || digit_run_start) {
            push_char(&mut result, '_');
        }
        push_char(&mut result, lower as char);
        proof {
            assert(result@ =~= snake_prefix(bytes@, (i + 1) as nat));
        }
        i = i + 1;
    }
    result
}

/// The name under which the macros call the conversion: the same as
/// `to_camel_case`.
pub fn to_snake_case(s: &str) -> (r: String)
    ensures
        r@ == snake_prefix(s.spec_bytes(), s.spec_bytes().len()),
{
    to_camel_case(s)
}

/// The byte is an ASCII letter.
pub open spec fn byte_is_ascii_alpha(b: u8) -> bool {
    65 <= b <= 90 || 97 <= b <= 122
}

/// The number of upper case letters among bytes `1..n`.
pub open spec fn uppercase_after_first(bytes: Seq<u8>, n: nat) -> nat
    decreases n,
{
    if n <= 1 {
        0
    } else {
        uppercase_after_first(bytes, (n - 1) as nat) + if byte_is_uppercase(bytes[n - 1]) { 1nat } else { 0nat }
    }
}

/// The characters as bytes.
pub open spec fn char_bytes(cs: Seq<char>) -> Seq<u8> {
    Seq::new(cs.len(), |i: int| cs[i] as u8)
}

/// For a name made of ASCII letters, the conversion has no upper case letter,
/// is as long as the name plus one underscore per upper case letter after the
/// first, and converting it again changes nothing.
pub proof fn lemma_snake_case_of_letters(bytes: Seq<u8>)
    requires
        forall|i: int| 0 <= i < bytes.len() ==> byte_is_ascii_alpha(#[trigger] bytes[i]),
    ensures
        forall|i: int| 0 <= i < snake_prefix(bytes, bytes.len()).len()
            ==> !(65 <= #[trigger] snake_prefix(bytes, bytes.len())[i] as u8 <= 90),
        snake_prefix(bytes, bytes.len()).len() == bytes.len() + uppercase_after_first(bytes, bytes.len()),
        snake_prefix(char_bytes(snake_prefix(bytes, bytes.len())), snake_prefix(bytes, bytes.len()).len())
            == snake_prefix(bytes, bytes.len()),
{
    lemma_letters_prefix(bytes, bytes.len());
}

proof fn lemma_letters_prefix(bytes: Seq<u8>, n: nat)
    requires
        n <= bytes.len(),
        forall|i: int| 0 <= i < bytes.len() ==> byte_is_ascii_alpha(#[trigger] bytes[i]),
    ensures
        forall|i: int| 0 <= i < snake_prefix(bytes, n).len() ==> {
            let c = #[trigger] snake_prefix(bytes, n)[i] as u8;
            c == 95 || 97 <= c <= 122
        },
        snake_prefix(bytes, n).len() == n + uppercase_after_first(bytes, n),
        n > 0 ==> snake_prefix(bytes, n)[0] != '_',
        snake_prefix(char_bytes(snake_prefix(bytes, n)), snake_prefix(bytes, n).len()) == snake_prefix(bytes, n),
    decreases n,
{
    if n > 0 {
        let m = (n - 1) as nat;
        lemma_letters_prefix(bytes, m);
        let p = snake_prefix(bytes, m);
        let piece = snake_piece(bytes, m as int);
        let q = p + piece;
        assert(snake_prefix(bytes, n) == q);
        let b = bytes[m as int];
        assert(byte_is_ascii_alpha(b));
        assert(!byte_is_digit(b));
        let lc = ascii_lower(b);
        assert(97 <= lc <= 122);
        if m > 0 && byte_is_uppercase(b) {
            assert(piece == seq!['_', lc as char]);
        } else {
            assert(piece == seq![lc as char]);
        }
        assert forall|i: int| 0 <= i < q.len() implies {
            let c = #[trigger] q[i] as u8;
            c == 95 || 97 <= c <= 122
        } by {
            if i < p.len() {
                assert(q[i] == p[i]);
            }
        }
        if m == 0 {
            assert(q[0] == lc as char);
        } else {
            assert(q[0] == p[0]);
        }
        // converting again: the bytes of q are those of p followed by the piece's
        let qb = char_bytes(q);
        let pb = char_bytes(p);
        lemma_snake_prefix_extends(qb, pb, p.len());
        assert(snake_prefix(qb, p.len()) == snake_prefix(pb, p.len()));
        if piece.len() == 2 {
            assert(qb[p.len() as int] == 95u8);
            assert(qb[p.len() as int + 1] == lc);
            let r1 = snake_prefix(qb, p.len() + 1);
            assert(r1 == snake_prefix(qb, p.len()) + snake_piece(qb, p.len() as int));
            assert(snake_piece(qb, p.len() as int) == seq![ascii_lower(95u8) as char]);
            assert(snake_prefix(qb, p.len() + 2) == r1 + snake_piece(qb, p.len() as int + 1));
            assert(snake_piece(qb, p.len() as int + 1) == seq![lc as char]);
            assert(ascii_lower(95u8) as char == '_');
            assert(snake_prefix(qb, q.len()) =~= q);
        } else {
            assert(qb[p.len() as int] == lc);
            if p.len() > 0 {
                assert(p[p.len() - 1] as u8 == qb[p.len() - 1]);
                assert(snake_piece(qb, p.len() as int) == seq![lc as char]);
            } else {
                assert(snake_piece(qb, 0) == seq![lc as char]);
            }
            assert(snake_prefix(qb, p.len() + 1) == snake_prefix(qb, p.len()) + snake_piece(qb, p.len() as int));
            assert(snake_prefix(qb, q.len()) =~= q);
        }
    }
}

/// The conversion of a prefix depends only on the bytes of that prefix.
proof fn lemma_snake_prefix_extends(a: Seq<u8>, b: Seq<u8>, n: nat)
    requires
        n <= a.len(),
        n <= b.len(),
        forall|i: int| 0 <= i < n ==> a[i] == b[i],
    ensures
        snake_prefix(a, n) == snake_prefix(b, n),
    decreases n,
{
    if n > 0 {
        lemma_snake_prefix_extends(a, b, (n - 1) as nat);
        assert(snake_piece(a, n - 1) == snake_piece(b, n - 1));
    }
}

} // verus!
