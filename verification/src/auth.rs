//! The shared secret with which callers authenticate.
use crate::header;
use crate::header::values;
use crate::header::Header;
use crate::text;
use crate::text::equal_folded;
use crate::text::same;
use crate::text::split_once;
use vstd::prelude::*;

verus! {

/// Whether a value of the authorization header carries a secret as its bearer token.
pub open spec fn bears(value: Seq<char>, secret: Seq<char>) -> bool {
    secret.len() > 0 && exists|scheme: Seq<char>|
        {
            &&& value == #[trigger] (scheme + seq![' '] + secret)
            &&& !scheme.contains(' ')
            &&& text::same_folded(scheme, "Bearer"@)
        }
}

/// Whether a request is authorized: always where no secret is set, and else with exactly one
/// authorization header that carries it as its bearer token.
pub open spec fn authorized(
    headers: Seq<(Seq<char>, Seq<char>)>,
    expected: Option<Seq<char>>,
) -> bool {
    match expected {
        None => true,
        Some(secret) => {
            let list = header::values_of(headers, "Authorization"@);
            list.len() == 1 && bears(list[0], secret)
        },
    }
}

/// Checks the shared secret, where one is set, against a request's bearer token.
pub fn is_authorized(headers: &Vec<Header>, expected: Option<&str>) -> (r: bool)
    ensures
        r == authorized(
            header::header_views(headers@),
            match expected {
                Some(s) => Some(s@),
                None => None,
            },
        ),
{
    let expected = match expected {
        None => return true,
        Some(expected) => expected,
    };
    let list = values(headers, "Authorization");
    let ghost views = header::values_of(header::header_views(headers@), "Authorization"@);
    assert(text::texts(list@).len() == list@.len());
    if list.len() != 1 {
        return false;
    }
    assert(views[0] == list@[0]@);
    match split_once(&list[0], ' ') {
        None => {
            proof {
                assert forall|scheme: Seq<char>| views[0] != #[trigger] (scheme + seq![' ']
                    + expected@) by {
                    let whole = scheme + seq![' '] + expected@;
                    assert(whole[scheme.len() as int] == ' ');
                    assert(whole.contains(' '));
                }
            }
            false
        },
        Some((scheme, token)) => {
            proof {
                assert forall|other: Seq<char>|
                    views[0] == #[trigger] (other + seq![' '] + expected@) && !other.contains(
                        ' ',
                    ) implies other == scheme@ && expected@ == token@ by {
                    text::lemma_cut(views[0], ' ', other, expected@);
                    text::lemma_cut(views[0], ' ', scheme@, token@);
                }
                if token@ == expected@ {
                    assert(views[0] == scheme@ + seq![' '] + expected@);
                }
            }
            equal_folded(&scheme, "Bearer") && !token.as_str().is_empty() && same(&token, expected)
        },
    }
}

/// A request is authorized where no secret is set, and otherwise exactly where it has one
/// authorization header, of the bearer scheme in any case, and what follows the scheme and a space
/// is the secret, which cannot be empty.
pub proof fn law_who_is_authorized(
    headers: Seq<(Seq<char>, Seq<char>)>,
    secret: Seq<char>,
    scheme: Seq<char>,
    token: Seq<char>,
)
    requires
        !scheme.contains(' '),
    ensures
        authorized(headers, None),
        header::values_of(headers, "Authorization"@).len() != 1 ==> !authorized(
            headers,
            Some(secret),
        ),
        header::values_of(headers, "Authorization"@) == seq![scheme + seq![' '] + token] ==> (
        authorized(headers, Some(secret)) <==> text::lower(scheme) == text::lower("Bearer"@)
            && token == secret && secret.len() > 0),
        header::values_of(headers, "Authorization"@) == seq![scheme] ==> !authorized(
            headers,
            Some(secret),
        ),
{
    let list = header::values_of(headers, "Authorization"@);
    if list == seq![scheme + seq![' '] + token] {
        let value = scheme + seq![' '] + token;
        assert(list[0] == value);
        if bears(value, secret) {
            let other = choose|other: Seq<char>|
                {
                    &&& value == #[trigger] (other + seq![' '] + secret)
                    &&& !other.contains(' ')
                    &&& text::same_folded(other, "Bearer"@)
                };
            text::lemma_cut(value, ' ', other, secret);
            text::lemma_cut(value, ' ', scheme, token);
        }
        if text::lower(scheme) == text::lower("Bearer"@) && token == secret && secret.len() > 0 {
            assert(value == scheme + seq![' '] + secret);
            assert(bears(value, secret));
        }
    }
    if list == seq![scheme] {
        assert(list[0] == scheme);
        if bears(scheme, secret) {
            let other = choose|other: Seq<char>|
                {
                    &&& scheme == #[trigger] (other + seq![' '] + secret)
                    &&& !other.contains(' ')
                    &&& text::same_folded(other, "Bearer"@)
                };
            let whole = other + seq![' '] + secret;
            assert(whole[other.len() as int] == ' ');
            assert(scheme.contains(' '));
        }
    }
}

} // verus!
