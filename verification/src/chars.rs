use vstd::prelude::*;

verus! {

/// Characters treated as separators: a query character matched just after one
/// of these sits at the start of a word or segment and earns the boundary
/// bonus.
pub open spec fn is_separator(c: char) -> bool {
    ||| c == ' '
    ||| c == '\t'
    ||| c == '_'
    ||| c == '-'
    ||| c == '.'
    ||| c == '/'
    ||| c == '\\'
    ||| c == ':'
    ||| c == ','
    ||| c == ';'
}

pub open spec fn is_ascii_upper(c: char) -> bool {
    'A' <= c && c <= 'Z'
}

pub open spec fn is_ascii_lower(c: char) -> bool {
    'a' <= c && c <= 'z'
}

/// Basic case folding: an ASCII upper-case letter folds to its lower-case
/// form, every other character is left unchanged. Matching compares folded
/// characters, so it is case-insensitive in this basic sense.
pub open spec fn fold_char(c: char) -> char {
    if is_ascii_upper(c) {
        (((c as u32) + 32) as char)
    } else {
        c
    }
}

/// A match at position `ci` of the candidate is on a boundary when it is the
/// very first character, follows a separator, or sits on a lower-to-upper
/// case transition.
pub open spec fn is_boundary(c: Seq<char>, ci: int) -> bool {
    ||| ci == 0
    ||| (0 < ci < c.len() && is_separator(c[ci - 1]))
    ||| (0 < ci < c.len() && is_ascii_lower(c[ci - 1]) && is_ascii_upper(c[ci]))
}

pub fn fold_char_exec(c: char) -> (r: char)
    ensures
        r == fold_char(c),
{
    let u = c as u32;
    if 65 <= u && u <= 90 {
        let b: u8 = (u + 32) as u8;
        assert(((u + 32) as u8) as u32 == u + 32) by (bit_vector)
            requires
                65 <= u && u <= 90,
        ;
        b as char
    } else {
        c
    }
}

pub fn is_separator_exec(c: char) -> (r: bool)
    ensures
        r == is_separator(c),
{
    c == ' ' || c == '\t' || c == '_' || c == '-' || c == '.' || c == '/' || c == '\\' || c == ':'
        || c == ',' || c == ';'
}

/// The characters of a string slice, collected in order into a vector.
pub fn chars_vec(s: &str) -> (r: Vec<char>)
    ensures
        r@ == s@,
{
    let n = s.unicode_len();
    let mut r: Vec<char> = Vec::new();
    let mut i: usize = 0;
    while i < n
        invariant
            i <= n,
            n == s@.len(),
            r@ == s@.subrange(0, i as int),
        decreases n - i,
    {
        r.push(s.get_char(i));
        i = i + 1;
        proof {
            assert(r@ =~= s@.subrange(0, i as int));
        }
    }
    proof {
        assert(r@ =~= s@);
    }
    r
}

} // verus!
