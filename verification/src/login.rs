//! What the login programs compute: the terminal name of a seat, and the
//! terminal and user of a session from the payload of the state that a login
//! sets.
use crate::json::{JsonModel, json_as_str, json_get, json_parse, parse_json};
use crate::text::{chars_of, concat, owned, string_from_range};
use vstd::prelude::*;

verus! {

/// The part of `s` after its last `c` (all of `s` where there is none).
pub open spec fn after_last(s: Seq<char>, c: char) -> Seq<char>
    decreases s.len(),
{
    if s.len() == 0 {
        s
    } else if s.last() == c {
        Seq::empty()
    } else {
        after_last(s.drop_last(), c).push(s.last())
    }
}

/// The name of a terminal device: what follows the last `/` of its path.
pub fn tty_name(tty: &str) -> (r: String)
    ensures
        r@ == after_last(tty@, '/'),
{
    let v = chars_of(tty);
    let n = v.len();
    let mut k = n;
    assert(tty@.subrange(0, n as int) =~= tty@);
    assert(tty@.subrange(n as int, n as int) =~= Seq::<char>::empty());
    assert(after_last(tty@, '/') =~= after_last(tty@.subrange(0, n as int), '/') + tty@.subrange(n as int, n as int));
    while k > 0
        invariant
            k <= n == v@.len(),
            v@ == tty@,
            after_last(tty@, '/') == after_last(tty@.subrange(0, k as int), '/') + tty@.subrange(k as int, n as int),
        decreases k,
    {
        if v[k - 1] == '/' {
            assert(tty@.subrange(0, k as int).last() == '/');
            assert(after_last(tty@.subrange(0, k as int), '/') =~= Seq::<char>::empty());
            assert(Seq::<char>::empty() + tty@.subrange(k as int, n as int) =~= tty@.subrange(k as int, n as int));
            return string_from_range(&v, k, n);
        }
        let ghost pre = tty@.subrange(0, k as int);
        assert(pre.drop_last() =~= tty@.subrange(0, k - 1));
        assert(after_last(pre, '/') == after_last(tty@.subrange(0, k - 1), '/').push(pre.last()));
        assert(tty@.subrange(k - 1, n as int) =~= seq![pre.last()] + tty@.subrange(k as int, n as int));
        assert(after_last(tty@.subrange(0, k - 1), '/').push(pre.last()) + tty@.subrange(k as int, n as int)
            =~= after_last(tty@.subrange(0, k - 1), '/') + tty@.subrange(k - 1, n as int));
        k = k - 1;
    }
    assert(after_last(tty@.subrange(0, 0), '/') =~= Seq::<char>::empty());
    assert(tty@.subrange(0, n as int) =~= tty@);
    string_from_range(&v, 0, n)
}

/// `s` begins with `p`.
pub open spec fn has_prefix(s: Seq<char>, p: Seq<char>) -> bool {
    p.len() <= s.len() && s.subrange(0, p.len() as int) == p
}

/// The device path of a terminal name: the name itself where it begins
/// with `/dev/`, else `/dev/` and the name.
pub open spec fn device_spec(name: Seq<char>) -> Seq<char> {
    if has_prefix(name, "/dev/"@) {
        name
    } else {
        "/dev/"@ + name
    }
}

/// The device path of a terminal name (see `device_spec`).
pub fn device_path(name: &str) -> (r: String)
    ensures
        r@ == device_spec(name@),
{
    proof {
        reveal_strlit("/dev/");
    }
    let v = chars_of(name);
    let prefixed = v.len() >= 5 && v[0] == '/' && v[1] == 'd' && v[2] == 'e' && v[3] == 'v' && v[4] == '/';
    if prefixed {
        assert(name@.subrange(0, 5) =~= "/dev/"@);
        owned(name)
    } else {
        proof {
            if has_prefix(name@, "/dev/"@) {
                assert(name@.subrange(0, 5)[0] == '/');
                assert(name@.subrange(0, 5)[1] == 'd');
                assert(name@.subrange(0, 5)[2] == 'e');
                assert(name@.subrange(0, 5)[3] == 'v');
                assert(name@.subrange(0, 5)[4] == '/');
            }
        }
        concat("/dev/", name)
    }
}

/// The text of the string member `key` of an object.
pub open spec fn member_text(m: JsonModel, key: Seq<char>) -> Option<Seq<char>> {
    match m {
        JsonModel::Object(o) => if o.dom().contains(key) {
            match o[key] {
                JsonModel::Str(s) => Some(s),
                _ => None,
            }
        } else {
            None
        },
        _ => None,
    }
}

pub open spec fn text_or(o: Option<Seq<char>>, d: Seq<char>) -> Seq<char> {
    match o {
        Some(t) => t,
        None => d,
    }
}

pub open spec fn opt_text(o: Option<String>) -> Option<Seq<char>> {
    match o {
        Some(s) => Some(s@),
        None => None,
    }
}

/// The terminal and user of a session. Where `raw` is JSON: the terminal is
/// the device of its `tty` member, else of its `seat` member, else
/// `/dev/tty1`; the user is its `id` member, else `unknown`. Where it is
/// not: the login terminal, else `/dev/tty1`, and the user, else `unknown`.
pub open spec fn session_spec(raw: Seq<char>, login_tty: Option<Seq<char>>, user: Option<Seq<char>>) -> (Seq<char>, Seq<char>) {
    match parse_json(raw) {
        Some(m) => (
            match member_text(m, "tty"@) {
                Some(t) => device_spec(t),
                None => match member_text(m, "seat"@) {
                    Some(s) => device_spec(s),
                    None => "/dev/tty1"@,
                },
            },
            text_or(member_text(m, "id"@), "unknown"@),
        ),
        None => (text_or(login_tty, "/dev/tty1"@), text_or(user, "unknown"@)),
    }
}

fn member(v: &serde_json::Value, key: &str) -> (r: Option<String>)
    ensures
        opt_text(r) == member_text(crate::json::json_view(*v), key@),
{
    match json_get(v, key) {
        Some(x) => match json_as_str(x) {
            Some(s) => Some(owned(s)),
            None => None,
        },
        None => None,
    }
}

/// The terminal and user of a session (see `session_spec`), from the payload
/// text of the login state, the login terminal and the user's name.
pub fn session_params(raw: &str, login_tty: Option<String>, user: Option<String>) -> (r: (String, String))
    ensures
        (r.0@, r.1@) == session_spec(raw@, opt_text(login_tty), opt_text(user)),
{
    match json_parse(raw) {
        Some(v) => {
            let tty = match member(&v, "tty") {
                Some(t) => device_path(t.as_str()),
                None => match member(&v, "seat") {
                    Some(s) => device_path(s.as_str()),
                    None => owned("/dev/tty1"),
                },
            };
            let name = match member(&v, "id") {
                Some(u) => u,
                None => owned("unknown"),
            };
            (tty, name)
        },
        None => (
            match login_tty {
                Some(t) => t,
                None => owned("/dev/tty1"),
            },
            match user {
                Some(u) => u,
                None => owned("unknown"),
            },
        ),
    }
}

} // verus!
