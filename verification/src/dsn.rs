//! Connection-string parsing.
//!
//! A DSN has the shape `user[:password]@host/database[/…]`.  The user part
//! is everything before the first `@`; inside it, the name runs to the
//! first `:` and the password is the following segment.  After the `@`,
//! the host runs to the first `/` and the database name is the following
//! segment.  A string without an `@`, or without a `/` after it, is
//! malformed.

use vstd::prelude::*;

use crate::error::Error;

verus! {

/// Index of the first occurrence of `c`, or `None` when absent.
pub open spec fn find_char(s: Seq<char>, c: char) -> Option<int>
    decreases s.len(),
{
    if s.len() == 0 {
        None
    } else if s[0] == c {
        Some(0)
    } else {
        match find_char(s.skip(1), c) {
            None => None,
            Some(i) => Some(i + 1),
        }
    }
}

/// `find_char` names the first occurrence, and `None` means none exists.
pub proof fn lemma_find_char_characterizes(s: Seq<char>, c: char)
    ensures
        match find_char(s, c) {
            Some(i) => 0 <= i < s.len() && s[i] == c && forall|j: int| 0 <= j < i ==> s[j] != c,
            None => forall|j: int| 0 <= j < s.len() ==> s[j] != c,
        },
    decreases s.len(),
{
    if s.len() > 0 && s[0] != c {
        lemma_find_char_characterizes(s.skip(1), c);
        assert forall|j: int| 1 <= j < s.len() implies s.skip(1)[j - 1] == s[j] by {}
    }
}

/// The text before the first occurrence of `c`; all of it when `c` is
/// absent.
pub open spec fn seg_before(s: Seq<char>, c: char) -> Seq<char> {
    match find_char(s, c) {
        None => s,
        Some(i) => s.take(i),
    }
}

/// The DSN has a user part, and a database after the host.
pub open spec fn dsn_valid(s: Seq<char>) -> bool {
    &&& find_char(s, '@') is Some
    &&& find_char(s.skip(find_char(s, '@')->Some_0 + 1), '/') is Some
}

/// The user-and-password part: what precedes the first `@`.
pub open spec fn dsn_userinfo(s: Seq<char>) -> Seq<char> {
    s.take(find_char(s, '@')->Some_0)
}

/// The address-and-database part: what follows the first `@`.
pub open spec fn dsn_addr(s: Seq<char>) -> Seq<char> {
    s.skip(find_char(s, '@')->Some_0 + 1)
}

/// The user name: the user part up to the first `:`.
pub open spec fn dsn_user(s: Seq<char>) -> Seq<char> {
    seg_before(dsn_userinfo(s), ':')
}

/// The password: the segment after the user name; empty when none is
/// given.
pub open spec fn dsn_password(s: Seq<char>) -> Seq<char> {
    match find_char(dsn_userinfo(s), ':') {
        None => Seq::empty(),
        Some(i) => seg_before(dsn_userinfo(s).skip(i + 1), ':'),
    }
}

/// The host: the address part up to the first `/`.
pub open spec fn dsn_host(s: Seq<char>) -> Seq<char> {
    seg_before(dsn_addr(s), '/')
}

/// The database name: the segment after the host.
pub open spec fn dsn_database(s: Seq<char>) -> Seq<char> {
    seg_before(dsn_addr(s).skip(find_char(dsn_addr(s), '/')->Some_0 + 1), '/')
}

/// A parsed connection string.
#[derive(Debug)]
pub struct Dsn {
    pub user: String,
    pub password: String,
    pub host: String,
    pub database: String,
}

/// Scans for the first occurrence of `c`.
fn find_char_exec(s: &str, c: char) -> (r: Option<usize>)
    ensures
        match find_char(s@, c) {
            None => r is None,
            Some(i) => r is Some && r->Some_0 as int == i,
        },
{
    proof {
        lemma_find_char_characterizes(s@, c);
    }
    let n = s.unicode_len();
    let mut i: usize = 0;
    while i < n
        invariant
            i <= n,
            n == s@.len(),
            forall|j: int| 0 <= j < i ==> s@[j] != c,
        decreases n - i,
    {
        if s.get_char(i) == c {
            proof {
                lemma_find_char_characterizes(s@, c);
            }
            return Some(i);
        }
        i += 1;
    }
    proof {
        lemma_find_char_characterizes(s@, c);
    }
    None
}

/// The segment of `s` from `from`: up to the next occurrence of `c`, or to
/// the end.
fn seg_after_exec(s: &str, from: usize, c: char) -> (r: String)
    requires
        from <= s@.len(),
    ensures
        r@ == seg_before(s@.skip(from as int), c),
{
    let n = s.unicode_len();
    let tail = s.substring_char(from, n);
    match find_char_exec(tail, c) {
        None => tail.to_owned(),
        Some(i) => {
            proof {
                lemma_find_char_characterizes(tail@, c);
            }
            let seg = tail.substring_char(0, i);
            proof {
                assert(seg@ =~= tail@.take(i as int));
            }
            seg.to_owned()
        },
    }
}

/// Parses a connection string into its four parts, or reports it
/// malformed: no `@`, or no `/` after it.  Realizes the collaborator
/// contract's `InvalidDSN` case.
pub fn parse_dsn(dsn: &str) -> (r: Result<Dsn, Error>)
    ensures
        dsn_valid(dsn@) ==> r is Ok && (r->Ok_0).user@ == dsn_user(dsn@) && (r->Ok_0).password@
            == dsn_password(dsn@) && (r->Ok_0).host@ == dsn_host(dsn@) && (r->Ok_0).database@
            == dsn_database(dsn@),
        !dsn_valid(dsn@) ==> r == Err::<Dsn, Error>(Error::InvalidDSN),
{
    let a = match find_char_exec(dsn, '@') {
        None => {
            return Err(Error::InvalidDSN);
        },
        Some(a) => a,
    };
    proof {
        lemma_find_char_characterizes(dsn@, '@');
    }
    let userinfo = dsn.substring_char(0, a);
    proof {
        assert(userinfo@ =~= dsn_userinfo(dsn@));
    }
    let n = dsn.unicode_len();
    let addr = dsn.substring_char(a + 1, n);
    proof {
        assert(addr@ =~= dsn_addr(dsn@));
    }
    let user = seg_after_exec(userinfo, 0, ':');
    proof {
        assert(userinfo@.skip(0) =~= userinfo@);
    }
    let password = match find_char_exec(userinfo, ':') {
        None => String::new(),
        Some(i) => {
            proof {
                lemma_find_char_characterizes(userinfo@, ':');
            }
            seg_after_exec(userinfo, i + 1, ':')
        },
    };
    let h = match find_char_exec(addr, '/') {
        None => {
            return Err(Error::InvalidDSN);
        },
        Some(h) => h,
    };
    proof {
        lemma_find_char_characterizes(addr@, '/');
    }
    let host = seg_after_exec(addr, 0, '/');
    proof {
        assert(addr@.skip(0) =~= addr@);
        assert(seg_before(addr@, '/') =~= addr@.take(h as int));
        assert(host@ == dsn_host(dsn@));
    }
    let database = seg_after_exec(addr, h + 1, '/');
    Ok(Dsn { user, password, host, database })
}

} // verus!
