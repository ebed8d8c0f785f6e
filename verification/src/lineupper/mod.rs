//! Team rosters: the players of a team as a roster file lists them, read
//! from its lines and written back.

pub mod player;
pub mod create;
pub mod roster;

use vstd::prelude::*;
use crate::text::{chars_of, hyphenated, is_alphanumeric, is_ascii_alphanumeric, lowered};
use crate::text::{is_digit, is_whitespace, leading_space, lower, string_of, to_lower};
use crate::text::{trailing_space, trim, trimmed, trimmed_end, trimmed_start};

verus! {

/// Whether a char stays in a slug: a letter from A to Z, a digit or a hyphen.
pub open spec fn is_slug_char(c: char) -> bool {
    is_alphanumeric(c) || c == '-'
}

/// The chars that stay in a slug, in their order.
pub open spec fn slug_chars(s: Seq<char>) -> Seq<char>
    decreases s.len(),
{
    if s.len() == 0 {
        s
    } else if is_slug_char(s.last()) {
        slug_chars(s.drop_last()).push(s.last())
    } else {
        slug_chars(s.drop_last())
    }
}

/// The slug of a name: in lower case, without white space at the ends,
/// with hyphens for spaces, and without any char but letters from A to Z,
/// digits and hyphens.
pub open spec fn slug(s: Seq<char>) -> Seq<char> {
    slug_chars(hyphenated(trimmed(lowered(s))))
}

/// Whether a char can stand in a slug: a lower-case letter from a to z, a
/// digit or a hyphen.
pub open spec fn is_clean(c: char) -> bool {
    ('a' <= c && c <= 'z') || is_digit(c) || c == '-'
}

/// Whether the chars are a slug already: each can stand in one.
pub open spec fn is_slug(s: Seq<char>) -> bool {
    forall|i: int| 0 <= i < s.len() ==> is_clean(#[trigger] s[i])
}

/// Whether the char is an upper-case letter from A to Z.
pub open spec fn is_upper(c: char) -> bool {
    'A' <= c && c <= 'Z'
}

/// What stays of chars without upper-case letters can stand in a slug.
proof fn lemma_slug_chars_are_clean(s: Seq<char>)
    requires
        forall|i: int| 0 <= i < s.len() ==> !is_upper(#[trigger] s[i]),
    ensures
        is_slug(slug_chars(s)),
    decreases s.len(),
{
    if s.len() > 0 {
        assert forall|i: int| 0 <= i < s.drop_last().len() implies !is_upper(
            #[trigger] s.drop_last()[i],
        ) by {
            assert(s.drop_last()[i] == s[i]);
        }
        lemma_slug_chars_are_clean(s.drop_last());
        assert(!is_upper(s[s.len() - 1]));
    }
}

/// Of a slug all chars stay.
proof fn lemma_slug_chars_keep_a_slug(s: Seq<char>)
    requires
        is_slug(s),
    ensures
        slug_chars(s) == s,
    decreases s.len(),
{
    if s.len() > 0 {
        assert forall|i: int| 0 <= i < s.drop_last().len() implies is_clean(
            #[trigger] s.drop_last()[i],
        ) by {
            assert(s.drop_last()[i] == s[i]);
        }
        lemma_slug_chars_keep_a_slug(s.drop_last());
        assert(is_clean(s[s.len() - 1]));
        assert(s.drop_last().push(s.last()) =~= s);
    }
}

/// In a slug only lower-case letters from a to z, digits and hyphens stand:
/// no space, no upper-case letter, no char beyond the first 128.
pub proof fn lemma_slug_is_clean(s: Seq<char>)
    ensures
        is_slug(slug(s)),
{
    let low = lowered(s);
    assert forall|i: int| 0 <= i < low.len() implies !is_upper(#[trigger] low[i]) by {
        assert(low[i] == lower(s[i]));
    }
    crate::text::lemma_space_is_bounded(low);
    let started = trimmed_start(low);
    crate::text::lemma_space_is_bounded(started);
    let core = trimmed(low);
    assert forall|i: int| 0 <= i < core.len() implies !is_upper(#[trigger] core[i]) by {
        assert(core[i] == low[i + leading_space(low)]);
    }
    let dashed = hyphenated(core);
    assert forall|i: int| 0 <= i < dashed.len() implies !is_upper(#[trigger] dashed[i]) by {
        assert(!is_upper(core[i]));
    }
    lemma_slug_chars_are_clean(dashed);
}

/// The slug of a slug is the slug itself.
pub proof fn lemma_slug_is_stable(s: Seq<char>)
    requires
        is_slug(s),
    ensures
        slug(s) == s,
{
    assert(lowered(s) =~= s) by {
        assert forall|i: int| 0 <= i < s.len() implies lower(s[i]) == s[i] by {
            assert(is_clean(s[i]));
        }
    }
    if s.len() > 0 {
        assert(is_clean(s[0]));
        assert(!is_whitespace(s[0]));
        assert(is_clean(s[s.len() - 1]));
        assert(!is_whitespace(s.last()));
    }
    assert(leading_space(s) == 0);
    assert(trimmed_start(s) =~= s);
    assert(trailing_space(s) == 0);
    assert(trimmed_end(s) =~= s);
    assert(hyphenated(s) =~= s) by {
        assert forall|i: int| 0 <= i < s.len() implies s[i] != ' ' by {
            assert(is_clean(s[i]));
        }
    }
    lemma_slug_chars_keep_a_slug(s);
}

/// The slug of a name, for file names. Only lower-case letters from a to z,
/// digits and hyphens stand in it, and its own slug is the slug itself.
pub fn slugify(str: &str) -> (r: String)
    ensures
        r@ == slug(str@),
        is_slug(r@),
        slug(r@) == r@,
{
    proof {
        lemma_slug_is_clean(str@);
        lemma_slug_is_stable(slug(str@));
    }
    let chars = chars_of(str);
    let mut low: Vec<char> = Vec::new();
    let mut i: usize = 0;
    while i < chars.len()
        invariant
            i <= chars.len(),
            low@ == lowered(chars@).take(i as int),
        decreases chars.len() - i,
    {
        low.push(to_lower(chars[i]));
        assert(low@ =~= lowered(chars@).take(i + 1));
        i += 1;
    }
    assert(lowered(chars@).take(i as int) =~= lowered(chars@));
    let core = trim(&low);
    let ghost dashed = hyphenated(core@);
    let mut kept: Vec<char> = Vec::new();
    let mut k: usize = 0;
    while k < core.len()
        invariant
            k <= core.len(),
            dashed == hyphenated(core@),
            kept@ == slug_chars(dashed.take(k as int)),
        decreases core.len() - k,
    {
        let c = if core[k] == ' ' {
            '-'
        } else {
            core[k]
        };
        assert(dashed.take(k + 1).drop_last() =~= dashed.take(k as int));
        assert(dashed.take(k + 1).last() == c);
        if is_ascii_alphanumeric(c) || c == '-' {
            kept.push(c);
        }
        k += 1;
    }
    assert(dashed.take(k as int) =~= dashed);
    string_of(&kept)
}

} // verus!
