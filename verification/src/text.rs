//! Small pieces of text.
use vstd::prelude::*;
use vstd::string::*;

verus! {

/// Whether `c` has the Unicode property `White_Space`.
pub open spec fn is_space(c: char) -> bool {
    ||| 0x9 <= c as u32 <= 0xd
    ||| c as u32 == 0x20
    ||| c as u32 == 0x85
    ||| c as u32 == 0xa0
    ||| c as u32 == 0x1680
    ||| 0x2000 <= c as u32 <= 0x200a
    ||| c as u32 == 0x2028
    ||| c as u32 == 0x2029
    ||| c as u32 == 0x202f
    ||| c as u32 == 0x205f
    ||| c as u32 == 0x3000
}

/// Whether a text neither begins nor ends with white space.
pub open spec fn is_trimmed(s: Seq<char>) -> bool {
    s.len() > 0 ==> !is_space(s[0]) && !is_space(s.last())
}

/// Whether `r` is `s` without the white space at both ends.
pub open spec fn trims_to(s: Seq<char>, r: Seq<char>) -> bool {
    exists|from: int, to: int|
        {
            &&& 0 <= from <= to <= s.len()
            &&& r == #[trigger] s.subrange(from, to)
            &&& is_trimmed(r)
            &&& forall|i: int| 0 <= i < from || to <= i < s.len() ==> is_space(#[trigger] s[i])
        }
}

/// There is one way to trim a text.
pub proof fn law_trimming_is_unique(s: Seq<char>, first: Seq<char>, second: Seq<char>)
    requires
        trims_to(s, first),
        trims_to(s, second),
    ensures
        first == second,
{
    let (a, b) = choose|from: int, to: int|
        {
            &&& 0 <= from <= to <= s.len()
            &&& first == #[trigger] s.subrange(from, to)
            &&& is_trimmed(first)
            &&& forall|i: int| 0 <= i < from || to <= i < s.len() ==> is_space(#[trigger] s[i])
        };
    let (c, d) = choose|from: int, to: int|
        {
            &&& 0 <= from <= to <= s.len()
            &&& second == #[trigger] s.subrange(from, to)
            &&& is_trimmed(second)
            &&& forall|i: int| 0 <= i < from || to <= i < s.len() ==> is_space(#[trigger] s[i])
        };
    if a < b {
        assert(first[0] == s[a]);
        assert(first.last() == s[b - 1]);
        assert(!is_space(s[a]) && !is_space(s[b - 1]));
    }
    if c < d {
        assert(second[0] == s[c]);
        assert(second.last() == s[d - 1]);
        assert(!is_space(s[c]) && !is_space(s[d - 1]));
    }
    assert(first =~= second);
}

/// A text without white space at its ends stays as it is.
pub proof fn law_trimmed_text_is_kept(s: Seq<char>)
    requires
        is_trimmed(s),
    ensures
        trims_to(s, s),
{
    assert(s =~= s.subrange(0, s.len() as int));
}

/// Trimming leaves no white space at the ends, so that trimming again changes nothing.
pub proof fn law_trimming_twice_changes_nothing(s: Seq<char>, r: Seq<char>)
    requires
        trims_to(s, r),
    ensures
        is_trimmed(r),
        trims_to(r, r),
{
    law_trimmed_text_is_kept(r);
}

fn white(c: char) -> (r: bool)
    ensures
        r == is_space(c),
{
    let code: u32 = c as u32;
    (0x9 <= code && code <= 0xd) || code == 0x20 || code == 0x85 || code == 0xa0 || code == 0x1680
        || (0x2000 <= code && code <= 0x200a) || code == 0x2028 || code == 0x2029 || code == 0x202f
        || code == 0x205f || code == 0x3000
}

fn characters(s: &str) -> (found: Vec<char>)
    ensures
        found@ == s@,
{
    let mut found: Vec<char> = Vec::new();
    for c in iter: s.chars()
        invariant
            iter.seq() == s@,
            found@ == s@.take(iter.index()),
    {
        found.push(c);
    }
    found
}

/// A text without the white space at its ends.
pub fn trim(s: &str) -> (r: String)
    ensures
        trims_to(s@, r@),
{
    let found = characters(s);
    let mut from: usize = 0;
    while from < found.len() && white(found[from])
        invariant
            from <= found@.len(),
            forall|i: int| 0 <= i < from ==> is_space(#[trigger] found@[i]),
        decreases found@.len() - from,
    {
        from += 1;
    }
    let mut to: usize = found.len();
    while from < to && white(found[to - 1])
        invariant
            from <= to <= found@.len(),
            forall|i: int| to <= i < found@.len() ==> is_space(#[trigger] found@[i]),
        decreases to,
    {
        to -= 1;
    }
    let r = s.substring_char(from, to).to_string();
    assert(r@ =~= s@.subrange(from as int, to as int));
    r
}

/// The digit `d` as a character.
pub open spec fn digit(d: nat) -> char {
    ((0x30 + d) as u32) as char
}

/// The decimal digits of `n`.
pub open spec fn decimal_digits(n: nat) -> Seq<char>
    decreases n,
{
    if n < 10 {
        seq![digit(n)]
    } else {
        decimal_digits(n / 10).push(digit(n % 10))
    }
}

fn digit_text(d: u64) -> (r: &'static str)
    requires
        d < 10,
    ensures
        r@ == seq![digit(d as nat)],
{
    proof {
        reveal_strlit("0");
        reveal_strlit("1");
        reveal_strlit("2");
        reveal_strlit("3");
        reveal_strlit("4");
        reveal_strlit("5");
        reveal_strlit("6");
        reveal_strlit("7");
        reveal_strlit("8");
        reveal_strlit("9");
    }
    let r = if d == 0 {
        "0"
    } else if d == 1 {
        "1"
    } else if d == 2 {
        "2"
    } else if d == 3 {
        "3"
    } else if d == 4 {
        "4"
    } else if d == 5 {
        "5"
    } else if d == 6 {
        "6"
    } else if d == 7 {
        "7"
    } else if d == 8 {
        "8"
    } else {
        "9"
    };
    assert(r@ =~= seq![digit(d as nat)]);
    r
}

/// The decimal text of `n`.
pub fn decimal(n: u64) -> (r: String)
    ensures
        r@ == decimal_digits(n as nat),
    decreases n,
{
    if n < 10 {
        digit_text(n).to_string()
    } else {
        let mut r = decimal(n / 10);
        let ghost lead = r@;
        r.append(digit_text(n % 10));
        assert(r@ =~= lead.push(digit((n % 10) as nat)));
        r
    }
}

/// So many spaces.
pub open spec fn spaces(n: int) -> Seq<char> {
    Seq::new(
        if n < 0 {
            0
        } else {
            n as nat
        },
        |i: int| ' ',
    )
}

/// A text with spaces before it, up to `width` characters in all.
pub fn pad_left(s: &str, width: usize) -> (r: String)
    ensures
        r@ == spaces(width - s@.len()) + s@,
{
    let n: usize = s.unicode_len();
    let mut r = String::new();
    let mut i: usize = n;
    proof {
        reveal_strlit(" ");
    }
    while i < width
        invariant
            n <= i,
            i <= width || i == n,
            r@ =~= spaces(i - n),
            " "@ =~= seq![' '],
        decreases width - i,
    {
        r.append(" ");
        i += 1;
    }
    r.append(s);
    assert(spaces(i - n) =~= spaces(width - n));
    r
}

/// Two texts, one after the other.
pub fn join(first: &str, second: &str) -> (r: String)
    ensures
        r@ == first@ + second@,
{
    let mut r = first.to_string();
    r.append(second);
    r
}

/// The number that digits stand for.
pub open spec fn number_read(digits: Seq<char>) -> int
    decreases digits.len(),
{
    if digits.len() == 0 {
        0
    } else {
        10 * number_read(digits.drop_last()) + (digits.last() as u32 - '0' as u32)
    }
}

pub(crate) proof fn lemma_number_read(n: nat)
    ensures
        number_read(decimal_digits(n)) == n,
        decimal_digits(n).len() > 0,
        decimal_digits(n)[0] == '0' ==> n == 0,
        forall|i: int|
            0 <= i < decimal_digits(n).len() ==> '0' <= #[trigger] decimal_digits(n)[i] <= '9',
        n == 0 ==> decimal_digits(n).len() == 1,
    decreases n,
{
    let all = decimal_digits(n);
    if n < 10 {
        assert(all.drop_last() =~= Seq::<char>::empty());
        reveal_with_fuel(number_read, 2);
    } else {
        let lead = decimal_digits(n / 10);
        lemma_number_read(n / 10);
        assert(all.drop_last() =~= lead);
        assert(all[0] == lead[0]);
        assert forall|i: int| 0 <= i < all.len() implies '0' <= #[trigger] all[i] <= '9' by {
            if i < lead.len() {
                assert(all[i] == lead[i]);
            }
        }
    }
}

/// Read as a number, the decimal text of a number is that number. It holds digits only, and
/// begins with a 0 only if it is the text of 0, which has one digit.
pub proof fn law_decimal_text_reads_back(n: u64, text: String)
    requires
        call_ensures(decimal, (n,), text),
    ensures
        number_read(text@) == n,
        text@.len() > 0,
        text@[0] == '0' ==> text@.len() == 1,
        forall|i: int| 0 <= i < text@.len() ==> '0' <= #[trigger] text@[i] <= '9',
{
    lemma_number_read(n as nat);
}

/// A text is the white space before it, what trimming leaves, and the white space behind it;
/// what is left neither begins nor ends with white space.
pub proof fn law_trimming_takes_white_space_alone(s: &str, r: String)
    requires
        call_ensures(trim, (s,), r),
    ensures
        exists|before: Seq<char>, after: Seq<char>|
            {
                &&& s@ == #[trigger] (before + r@ + after)
                &&& forall|i: int| 0 <= i < before.len() ==> is_space(#[trigger] before[i])
                &&& forall|i: int| 0 <= i < after.len() ==> is_space(#[trigger] after[i])
            },
        r@.len() > 0 ==> !is_space(r@[0]) && !is_space(r@[r@.len() - 1]),
{
    let (from, to) = choose|from: int, to: int|
        {
            &&& 0 <= from <= to <= s@.len()
            &&& r@ == #[trigger] s@.subrange(from, to)
            &&& is_trimmed(r@)
            &&& forall|i: int| 0 <= i < from || to <= i < s@.len() ==> is_space(#[trigger] s@[i])
        };
    let before = s@.subrange(0, from);
    let after = s@.subrange(to, s@.len() as int);
    assert(s@ =~= before + r@ + after);
    assert forall|i: int| 0 <= i < before.len() implies is_space(#[trigger] before[i]) by {
        assert(before[i] == s@[i]);
    }
    assert forall|i: int| 0 <= i < after.len() implies is_space(#[trigger] after[i]) by {
        assert(after[i] == s@[to + i]);
    }
}

/// A padded text ends with the text, begins with spaces, and has the width asked for or that of
/// the text, whichever is larger.
pub proof fn law_padding_fills_the_width(s: &str, width: usize, r: String)
    requires
        call_ensures(pad_left, (s, width), r),
    ensures
        s@.len() <= width ==> r@.len() == width,
        s@.len() > width ==> r@.len() == s@.len(),
        r@.subrange(r@.len() - s@.len(), r@.len() as int) == s@,
        forall|i: int| 0 <= i < r@.len() - s@.len() ==> #[trigger] r@[i] == ' ',
{
    assert(r@.subrange(r@.len() - s@.len(), r@.len() as int) =~= s@);
}

/// Joined texts stand one after the other.
pub proof fn law_joined_texts_are_whole(first: &str, second: &str, r: String)
    requires
        call_ensures(join, (first, second), r),
    ensures
        r@.len() == first@.len() + second@.len(),
        r@.subrange(0, first@.len() as int) == first@,
        r@.subrange(first@.len() as int, r@.len() as int) == second@,
{
    assert(r@.subrange(0, first@.len() as int) =~= first@);
    assert(r@.subrange(first@.len() as int, r@.len() as int) =~= second@);
}

} // verus!
