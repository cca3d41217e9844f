//! The form of a text that searches compare.
use crate::text::{ascii_lower, char_to_lowercase, lower_chars};
use vstd::prelude::*;

verus! {

/// A character as searches compare it: a Turkish letter becomes the ASCII
/// letter beneath it, and any other character its lower case, of which only
/// the first character counts.
pub open spec fn fold_char(c: char) -> char {
    match c {
        'ş' | 'Ş' => 's',
        'ğ' | 'Ğ' => 'g',
        'ü' | 'Ü' => 'u',
        'ö' | 'Ö' => 'o',
        'ı' | 'İ' => 'i',
        'ç' | 'Ç' => 'c',
        _ => if (c as u32) < 128 {
            ascii_lower(c)
        } else if lower_chars(c).len() > 0 {
            lower_chars(c)[0]
        } else {
            c
        },
    }
}

/// A text as searches compare it.
pub open spec fn normalized(s: Seq<char>) -> Seq<char> {
    s.map_values(|c: char| fold_char(c))
}

fn fold(c: char) -> (r: char)
    ensures
        r == fold_char(c),
{
    match c {
        'ş' | 'Ş' => 's',
        'ğ' | 'Ğ' => 'g',
        'ü' | 'Ü' => 'u',
        'ö' | 'Ö' => 'o',
        'ı' | 'İ' => 'i',
        'ç' | 'Ç' => 'c',
        _ => {
            let lower = char_to_lowercase(c);
            if lower.len() > 0 {
                lower[0]
            } else {
                c
            }
        },
    }
}

/// Brings a text into the form that searches compare.
pub fn normalize_turkish(s: &str) -> (r: String)
    ensures
        r@ == normalized(s@),
{
    let mut out = String::new();
    for c in it: s.chars()
        invariant
            it.seq() == s@,
            out@ == normalized(s@.take(it.index() as int)),
    {
        assert(c == s@[it.index() as int]);
        out.push(fold(c));
        assert(out@ =~= normalized(s@.take(it.index() + 1)));
    }
    assert(s@.take(s@.len() as int) =~= s@);
    out
}

/// Normalizing keeps the number of characters, and works on the parts of a
/// text one by one.
pub proof fn law_normalizing_goes_by_character(s: Seq<char>, t: Seq<char>)
    ensures
        normalized(s).len() == s.len(),
        normalized(s + t) == normalized(s) + normalized(t),
{
    assert(normalized(s + t) =~= normalized(s) + normalized(t));
}

/// Whether a character is one of the Turkish letters that have an ASCII letter
/// beneath them.
pub open spec fn is_turkish(c: char) -> bool {
    match c {
        'ş' | 'Ş' | 'ğ' | 'Ğ' | 'ü' | 'Ü' | 'ö' | 'Ö' | 'ı' | 'İ' | 'ç' | 'Ç' => true,
        _ => false,
    }
}

/// Every character of a text is mapped by itself: each Turkish letter to the ASCII
/// letter beneath it, an ASCII capital to the small letter, any other ASCII
/// character to itself, and what is left to the start of its lower case.
pub proof fn law_each_character_is_mapped(s: Seq<char>, i: int)
    requires
        0 <= i < s.len(),
    ensures
        normalized(s).len() == s.len(),
        s[i] == 'ş' || s[i] == 'Ş' ==> normalized(s)[i] == 's',
        s[i] == 'ğ' || s[i] == 'Ğ' ==> normalized(s)[i] == 'g',
        s[i] == 'ü' || s[i] == 'Ü' ==> normalized(s)[i] == 'u',
        s[i] == 'ö' || s[i] == 'Ö' ==> normalized(s)[i] == 'o',
        s[i] == 'ı' || s[i] == 'İ' ==> normalized(s)[i] == 'i',
        s[i] == 'ç' || s[i] == 'Ç' ==> normalized(s)[i] == 'c',
        'A' <= s[i] <= 'Z' ==> normalized(s)[i] as int == s[i] as int + 32,
        (s[i] as int) < 128 && !('A' <= s[i] <= 'Z') ==> normalized(s)[i] == s[i],
        (s[i] as int) >= 128 && !is_turkish(s[i]) ==> normalized(s)[i] == (if lower_chars(
            s[i],
        ).len() > 0 {
            lower_chars(s[i])[0]
        } else {
            s[i]
        }),
        is_turkish(s[i]) <==> s[i] == 'ş' || s[i] == 'Ş' || s[i] == 'ğ' || s[i] == 'Ğ' || s[i]
            == 'ü' || s[i] == 'Ü' || s[i] == 'ö' || s[i] == 'Ö' || s[i] == 'ı' || s[i] == 'İ'
            || s[i] == 'ç' || s[i] == 'Ç',
{
}

/// Whether the lower case of a character is clean: it starts with a character that
/// is no ASCII capital and none of the Turkish letters, and that is the start of its
/// own lower case. ASCII characters and the Turkish letters do not go by it.
pub open spec fn lowers_cleanly(c: char) -> bool {
    (c as u32) < 128 || is_turkish(c) || lower_chars(c).len() == 0 || {
        let d = lower_chars(c)[0];
        &&& !('A' <= d <= 'Z')
        &&& !is_turkish(d)
        &&& (d as u32) < 128 || lower_chars(d).len() == 0 || lower_chars(d)[0] == d
    }
}

/// A normalized text holds no ASCII capital and none of the Turkish letters, and
/// normalizing it once more changes nothing, where the lower case of each character
/// is clean.
pub proof fn law_text_is_normalized_once(s: Seq<char>)
    requires
        forall|i: int| 0 <= i < s.len() ==> lowers_cleanly(#[trigger] s[i]),
    ensures
        forall|i: int|
            0 <= i < s.len() ==> !('A' <= #[trigger] normalized(s)[i] <= 'Z') && !is_turkish(
                normalized(s)[i],
            ),
        normalized(normalized(s)) == normalized(s),
{
    assert forall|i: int| 0 <= i < s.len() implies !('A' <= #[trigger] normalized(s)[i] <= 'Z')
        && !is_turkish(normalized(s)[i]) && fold_char(normalized(s)[i]) == normalized(s)[i] by {
        assert(lowers_cleanly(s[i]));
    }
    assert(normalized(normalized(s)) =~= normalized(s));
}

/// Whether a text is of ASCII and Turkish letters alone.
pub open spec fn is_plain(s: Seq<char>) -> bool {
    forall|i: int| 0 <= i < s.len() ==> (#[trigger] s[i] as u32) < 128 || is_turkish(s[i])
}

/// Normalizing a text of ASCII and Turkish letters leaves ASCII characters
/// without capitals, so none of the Turkish letters, and normalizing it once more
/// changes nothing.
pub proof fn law_plain_text_is_normalized_once(s: Seq<char>)
    requires
        is_plain(s),
    ensures
        forall|i: int|
            0 <= i < s.len() ==> (#[trigger] normalized(s)[i] as u32) < 128 && !('A'
                <= normalized(s)[i] <= 'Z') && !is_turkish(normalized(s)[i]),
        normalized(normalized(s)) == normalized(s),
{
    assert forall|i: int| 0 <= i < s.len() implies (#[trigger] normalized(s)[i] as u32) < 128 by {
        assert((s[i] as u32) < 128 || is_turkish(s[i]));
    }
    law_text_is_normalized_once(s);
}

} // verus!
