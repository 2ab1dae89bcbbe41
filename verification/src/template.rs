//! File-name templates: validation and `[name]` placeholder replacement,
//! the naming step run for every chunk.

use vstd::prelude::*;

verus! {

/// The placeholder that a file-name template must contain.
pub open spec fn marker() -> Seq<char> {
    seq!['[', 'n', 'a', 'm', 'e', ']']
}

/// The placeholder occurs at position `i` of `t`.
pub open spec fn marker_at(t: Seq<char>, i: int) -> bool {
    0 <= i && i + 6 <= t.len() && t.subrange(i, i + 6) == marker()
}

/// A template is valid iff it contains the placeholder.
pub open spec fn has_marker(t: Seq<char>) -> bool {
    exists|i: int| marker_at(t, i)
}

/// `r` is `t` with its first placeholder replaced by `name`.
pub open spec fn is_rendered(t: Seq<char>, name: Seq<char>, r: Seq<char>) -> bool {
    exists|i: int|
        {
            &&& #[trigger] marker_at(t, i)
            &&& forall|j: int| 0 <= j < i ==> !marker_at(t, j)
            &&& r == t.subrange(0, i) + name + t.subrange(i + 6, t.len() as int)
        }
}

/// Finds the first placeholder occurrence, if any.
fn find_marker(t: &str) -> (r: Option<usize>)
    ensures
        match r {
            Some(i) => marker_at(t@, i as int) && (forall|j: int| 0 <= j < i ==> !marker_at(t@, j)),
            None => !has_marker(t@),
        },
{
    let n = t.unicode_len();
    if n < 6 {
        return None;
    }
    let mut i: usize = 0;
    while i <= n - 6
        invariant
            n == t@.len(),
            6 <= n,
            i <= n - 5,
            forall|j: int| 0 <= j < i ==> !marker_at(t@, j),
        decreases n - i,
    {
        let c0 = t.get_char(i);
        let c1 = t.get_char(i + 1);
        let c2 = t.get_char(i + 2);
        let c3 = t.get_char(i + 3);
        let c4 = t.get_char(i + 4);
        let c5 = t.get_char(i + 5);
        if c0 == '[' && c1 == 'n' && c2 == 'a' && c3 == 'm' && c4 == 'e' && c5 == ']' {
            proof {
                assert(t@.subrange(i as int, i as int + 6) =~= marker());
            }
            return Some(i);
        }
        proof {
            assert(!marker_at(t@, i as int)) by {
                if marker_at(t@, i as int) {
                    let s = t@.subrange(i as int, i as int + 6);
                    assert(s[0] == t@[i as int]);
                    assert(s[1] == t@[i + 1]);
                    assert(s[2] == t@[i + 2]);
                    assert(s[3] == t@[i + 3]);
                    assert(s[4] == t@[i + 4]);
                    assert(s[5] == t@[i + 5]);
                }
            }
        }
        i += 1;
    }
    proof {
        assert(!has_marker(t@)) by {
            if has_marker(t@) {
                let j = choose|j: int| marker_at(t@, j);
                assert(j < i);
            }
        }
    }
    None
}

/// True iff the template contains the `[name]` placeholder.
pub fn template_is_valid(t: &str) -> (r: bool)
    ensures
        r == has_marker(t@),
{
    find_marker(t).is_some()
}

/// Replaces the first placeholder of `t` with `name`.
pub fn render_template(t: &str, name: &str) -> (r: String)
    requires
        has_marker(t@),
    ensures
        is_rendered(t@, name@, r@),
{
    let n = t.unicode_len();
    let found = find_marker(t);
    let i = match found {
        Some(i) => i,
        None => {
            proof {
                assert(false);
            }
            0
        },
    };
    let prefix = t.substring_char(0, i);
    let suffix = t.substring_char(i + 6, n);
    let mut r = prefix.to_owned();
    r.append(name);
    r.append(suffix);
    proof {
        assert(r@ == t@.subrange(0, i as int) + name@ + t@.subrange(i + 6, t@.len() as int));
    }
    r
}

} // verus!
