use vstd::prelude::*;
use vstd::string::*;

verus! {

/// `rest` placed under `base` with one `/` between them, as a path join does:
/// an absolute `rest` stands alone, and an empty `base` adds nothing.
pub open spec fn joined(base: Seq<char>, rest: Seq<char>) -> Seq<char> {
    if rest.len() > 0 && rest[0] == '/' {
        rest
    } else if base.len() == 0 || base.last() == '/' {
        base + rest
    } else {
        base + seq!['/'] + rest
    }
}

/// Joins `rest` onto `base` with a single separator.
pub fn join_path(base: &str, rest: &str) -> (r: String)
    ensures
        r@ == joined(base@, rest@),
{
    if rest.unicode_len() > 0 && rest.get_char(0) == '/' {
        return String::from_str(rest);
    }
    let n = base.unicode_len();
    let mut r = String::from_str(base);
    if n > 0 && base.get_char(n - 1) != '/' {
        proof {
            reveal_strlit("/");
        }
        r.append("/");
    }
    r.append(rest);
    r
}

/// A component that names something: neither empty nor `.`.
pub open spec fn names_something(seg: Seq<char>) -> bool {
    seg.len() > 0 && seg != seq!['.']
}

/// The last naming component of `s[..end]`, where the component being read
/// is `s[i..end]` and holds no `/`.
pub open spec fn last_named(s: Seq<char>, end: int, i: int) -> Option<Seq<char>>
    decreases i,
{
    if i <= 0 {
        if names_something(s.subrange(0, end)) {
            Some(s.subrange(0, end))
        } else {
            None
        }
    } else if s[i - 1] == '/' {
        if names_something(s.subrange(i, end)) {
            Some(s.subrange(i, end))
        } else {
            last_named(s, i - 1, i - 1)
        }
    } else {
        last_named(s, end, i - 1)
    }
}

/// The final component of path `s`: its last component that is neither
/// empty nor `.`, unless that is `..`. A root, an empty path or one of
/// `.` components only has none.
pub open spec fn last_component(s: Seq<char>) -> Option<Seq<char>> {
    match last_named(s, s.len() as int, s.len() as int) {
        Some(seg) => if seg == seq!['.', '.'] {
            None
        } else {
            Some(seg)
        },
        None => None,
    }
}

fn names_at(s: &str, i: usize, end: usize) -> (r: bool)
    requires
        i <= end <= s@.len(),
    ensures
        r == names_something(s@.subrange(i as int, end as int)),
{
    if end == i {
        return false;
    }
    let one = end - i == 1 && s.get_char(i) == '.';
    proof {
        let seg = s@.subrange(i as int, end as int);
        let dot: Seq<char> = seq!['.'];
        assert(dot.len() == 1 && dot[0] == '.');
        if one {
            assert(seg =~= dot);
        } else if seg.len() == 1 {
            assert(seg[0] != dot[0]);
        }
    }
    !one
}

/// The final component of a path, `None` where it has none.
pub fn file_name(path: &str) -> (r: Option<String>)
    ensures
        r matches Some(name) ==> last_component(path@) == Some(name@),
        r is None ==> last_component(path@) is None,
{
    let n = path.unicode_len();
    let mut end: usize = n;
    let mut i: usize = n;
    let mut found: Option<(usize, usize)> = None;
    while i > 0 && found.is_none()
        invariant
            0 <= i <= end <= n,
            n == path@.len(),
            found is None ==> last_named(path@, end as int, i as int) == last_named(
                path@,
                n as int,
                n as int,
            ),
            found matches Some(p) ==> p.0 <= p.1 <= n && last_named(path@, n as int, n as int)
                == Some(path@.subrange(p.0 as int, p.1 as int)),
        decreases i,
    {
        if path.get_char(i - 1) == '/' {
            if names_at(path, i, end) {
                found = Some((i, end));
            } else {
                end = i - 1;
            }
        }
        i = i - 1;
    }
    let (a, b) = match found {
        Some(p) => p,
        None => {
            if names_at(path, 0, end) {
                (0, end)
            } else {
                return None;
            }
        },
    };
    let dots = b - a == 2 && path.get_char(a) == '.' && path.get_char(a + 1) == '.';
    if dots {
        assert(path@.subrange(a as int, b as int) =~= seq!['.', '.']);
        return None;
    }
    proof {
        let seg = path@.subrange(a as int, b as int);
        let dd: Seq<char> = seq!['.', '.'];
        assert(dd.len() == 2 && dd[0] == '.' && dd[1] == '.');
        if seg.len() == 2 {
            assert(seg[0] == path@[a as int] && seg[1] == path@[a + 1]);
            assert(seg[0] != dd[0] || seg[1] != dd[1]);
        }
        assert(seg != dd);
    }
    Some(String::from_str(path.substring_char(a, b)))
}

} // verus!
