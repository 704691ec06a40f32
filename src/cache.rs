//! Bookkeeping for files converted to text by a parsing backend.
use vstd::prelude::*;
use crate::text::{lower_of, lowercase};
use crate::workspace::{join, join_path};

verus! {

pub struct FileMetadata {
    pub modified_time: u64,
    pub size: u64,
    pub parsed_path: String,
}

pub struct CacheManager {
    pub cache_dir: String,
}

/// `s` without its trailing `'/'` characters and `/.` components.
pub open spec fn trim_slashes(s: Seq<char>) -> Seq<char>
    decreases s.len(),
{
    if s.len() > 0 && s.last() == '/' {
        trim_slashes(s.drop_last())
    } else if s.len() > 1 && s.last() == '.' && s[s.len() - 2] == '/' {
        trim_slashes(s.subrange(0, s.len() - 2))
    } else {
        s
    }
}

/// Index just past the last occurrence of `c` in `s`, or 0.
pub open spec fn after_last(s: Seq<char>, c: char) -> int
    decreases s.len(),
{
    if s.len() == 0 {
        0
    } else if s.last() == c {
        s.len() as int
    } else {
        after_last(s.drop_last(), c)
    }
}

/// The last component of a path, trailing `/` and `/.` aside, or `None`
/// for a path that ends in no name (empty, `.` or `..`).
pub open spec fn file_name(p: Seq<char>) -> Option<Seq<char>> {
    let t = trim_slashes(p);
    let name = t.subrange(after_last(t, '/'), t.len() as int);
    if name.len() == 0 || name == seq!['.'] || name == seq!['.', '.'] {
        None
    } else {
        Some(name)
    }
}

/// What follows the last `.` of the file name, where that `.` is not its first character.
pub open spec fn extension(p: Seq<char>) -> Option<Seq<char>> {
    match file_name(p) {
        None => None,
        Some(name) => if after_last(name, '.') > 1 {
            Some(name.subrange(after_last(name, '.'), name.len() as int))
        } else {
            None
        },
    }
}

/// Extensions of files that are read as they are.
pub open spec fn is_text_extension(e: Seq<char>) -> bool {
    ||| e == seq!['t', 'x', 't']
    ||| e == seq!['m', 'd']
    ||| e == seq!['r', 's', 't']
    ||| e == seq!['o', 'r', 'g']
    ||| e == seq!['c', 's', 'v']
    ||| e == seq!['j', 's', 'o', 'n']
    ||| e == seq!['x', 'm', 'l']
    ||| e == seq!['y', 'a', 'm', 'l']
    ||| e == seq!['y', 'm', 'l']
    ||| e == seq!['p', 'y']
    ||| e == seq!['j', 's']
    ||| e == seq!['t', 's']
    ||| e == seq!['r', 's']
}

pub open spec fn text_extensions() -> Seq<Seq<char>> {
    seq![
        seq!['t', 'x', 't'],
        seq!['m', 'd'],
        seq!['r', 's', 't'],
        seq!['o', 'r', 'g'],
        seq!['c', 's', 'v'],
        seq!['j', 's', 'o', 'n'],
        seq!['x', 'm', 'l'],
        seq!['y', 'a', 'm', 'l'],
        seq!['y', 'm', 'l'],
        seq!['p', 'y'],
        seq!['j', 's'],
        seq!['t', 's'],
        seq!['r', 's'],
    ]
}

proof fn lemma_after_last_bounds(s: Seq<char>, c: char)
    ensures
        0 <= after_last(s, c) <= s.len(),
        after_last(s, c) > 0 ==> s[after_last(s, c) - 1] == c,
        forall|j: int| after_last(s, c) <= j < s.len() ==> s[j] != c,
    decreases s.len(),
{
    if s.len() > 0 && s.last() != c {
        lemma_after_last_bounds(s.drop_last(), c);
        assert forall|j: int| after_last(s, c) <= j < s.len() implies s[j] != c by {
            if j < s.len() - 1 {
                assert(s[j] == s.drop_last()[j]);
            }
        }
    }
}

fn trimmed_len(p: &str) -> (r: usize)
    ensures
        r <= p@.len(),
        trim_slashes(p@) == p@.subrange(0, r as int),
{
    let mut n = p.unicode_len();
    proof {
        assert(p@.subrange(0, n as int) =~= p@);
    }
    loop
        invariant
            n <= p@.len(),
            trim_slashes(p@) == trim_slashes(p@.subrange(0, n as int)),
        ensures
            n <= p@.len(),
            trim_slashes(p@) == p@.subrange(0, n as int),
        decreases n,
    {
        if n > 0 && p.get_char(n - 1) == '/' {
            proof {
                assert(p@.subrange(0, n as int).drop_last() =~= p@.subrange(0, n as int - 1));
            }
            n = n - 1;
        } else if n > 1 && p.get_char(n - 1) == '.' && p.get_char(n - 2) == '/' {
            proof {
                assert(p@.subrange(0, n as int).subrange(0, n as int - 2) =~= p@.subrange(0, n as int - 2));
            }
            n = n - 2;
        } else {
            proof {
                let t = p@.subrange(0, n as int);
                if n > 0 {
                    assert(t.last() == p@[n as int - 1]);
                }
                if n > 1 {
                    assert(t[n as int - 2] == p@[n as int - 2]);
                }
                assert(trim_slashes(t) == t);
            }
            break;
        }
    }
    n
}

/// Index just past the last `c` among the first `n` characters of `p`.
fn after_last_in(p: &str, n: usize, c: char) -> (r: usize)
    requires
        n <= p@.len(),
    ensures
        r == after_last(p@.subrange(0, n as int), c),
{
    let mut k = n;
    while k > 0 && p.get_char(k - 1) != c
        invariant
            k <= n <= p@.len(),
            after_last(p@.subrange(0, n as int), c) == after_last(p@.subrange(0, k as int), c),
        decreases k,
    {
        proof {
            assert(p@.subrange(0, k as int).drop_last() =~= p@.subrange(0, k as int - 1));
        }
        k = k - 1;
    }
    proof {
        if k > 0 {
            assert(p@.subrange(0, k as int).last() == p@[k as int - 1]);
        }
    }
    k
}

/// The file name of a path, as `file_name` describes it.
pub fn file_name_of(p: &str) -> (r: Option<String>)
    ensures
        match r {
            None => file_name(p@) is None,
            Some(s) => file_name(p@) == Some(s@),
        },
{
    let t = trimmed_len(p);
    let a = after_last_in(p, t, '/');
    proof {
        lemma_after_last_bounds(p@.subrange(0, t as int), '/');
    }
    let name = p.substring_char(a, t);
    proof {
        assert(name@ =~= trim_slashes(p@).subrange(after_last(trim_slashes(p@), '/'), trim_slashes(p@).len() as int));
        reveal_strlit(".");
        reveal_strlit("..");
    }
    let len = name.unicode_len();
    if len == 0 {
        return None;
    }
    if len == 1 && name.get_char(0) == '.' {
        proof {
            assert(name@ =~= seq!['.']);
        }
        return None;
    }
    if len == 2 && name.get_char(0) == '.' && name.get_char(1) == '.' {
        proof {
            assert(name@ =~= seq!['.', '.']);
        }
        return None;
    }
    proof {
        if name@ == seq!['.'] {
            assert(name@[0] == '.');
        }
        if name@ == seq!['.', '.'] {
            assert(name@[0] == '.' && name@[1] == '.');
        }
    }
    Some(name.to_owned())
}

fn is_text_extension_exec(e: &str) -> (r: bool)
    ensures
        r == is_text_extension(e@),
{
    let names: [&str; 13] = ["txt", "md", "rst", "org", "csv", "json", "xml", "yaml", "yml", "py", "js", "ts", "rs"];
    proof {
        reveal_strlit("txt");
        reveal_strlit("md");
        reveal_strlit("rst");
        reveal_strlit("org");
        reveal_strlit("csv");
        reveal_strlit("json");
        reveal_strlit("xml");
        reveal_strlit("yaml");
        reveal_strlit("yml");
        reveal_strlit("py");
        reveal_strlit("js");
        reveal_strlit("ts");
        reveal_strlit("rs");
        assert("txt"@ =~= seq!['t', 'x', 't']);
        assert("md"@ =~= seq!['m', 'd']);
        assert("rst"@ =~= seq!['r', 's', 't']);
        assert("org"@ =~= seq!['o', 'r', 'g']);
        assert("csv"@ =~= seq!['c', 's', 'v']);
        assert("json"@ =~= seq!['j', 's', 'o', 'n']);
        assert("xml"@ =~= seq!['x', 'm', 'l']);
        assert("yaml"@ =~= seq!['y', 'a', 'm', 'l']);
        assert("yml"@ =~= seq!['y', 'm', 'l']);
        assert("py"@ =~= seq!['p', 'y']);
        assert("js"@ =~= seq!['j', 's']);
        assert("ts"@ =~= seq!['t', 's']);
        assert("rs"@ =~= seq!['r', 's']);
    }
    let ghost views = text_extensions();
    proof {
        assert forall|j: int| 0 <= j < 13 implies #[trigger] names@[j]@ == views[j] by {}
        assert(is_text_extension(e@) ==> exists|j: int| 0 <= j < 13 && views[j] == e@) by {
            if e@ == seq!['t', 'x', 't'] { assert(views[0] == e@); }
            if e@ == seq!['m', 'd'] { assert(views[1] == e@); }
            if e@ == seq!['r', 's', 't'] { assert(views[2] == e@); }
            if e@ == seq!['o', 'r', 'g'] { assert(views[3] == e@); }
            if e@ == seq!['c', 's', 'v'] { assert(views[4] == e@); }
            if e@ == seq!['j', 's', 'o', 'n'] { assert(views[5] == e@); }
            if e@ == seq!['x', 'm', 'l'] { assert(views[6] == e@); }
            if e@ == seq!['y', 'a', 'm', 'l'] { assert(views[7] == e@); }
            if e@ == seq!['y', 'm', 'l'] { assert(views[8] == e@); }
            if e@ == seq!['p', 'y'] { assert(views[9] == e@); }
            if e@ == seq!['j', 's'] { assert(views[10] == e@); }
            if e@ == seq!['t', 's'] { assert(views[11] == e@); }
            if e@ == seq!['r', 's'] { assert(views[12] == e@); }
        }
    }
    let mut i: usize = 0;
    while i < 13
        invariant
            i <= 13,
            forall|j: int| 0 <= j < 13 ==> #[trigger] names@[j]@ == views[j],
            views == text_extensions(),
            is_text_extension(e@) ==> exists|j: int| 0 <= j < 13 && views[j] == e@,
            forall|j: int| 0 <= j < i ==> views[j] != e@,
        decreases 13 - i,
    {
        if str_eq(names[i], e) {
            proof {
                assert(views[i as int] == e@);
                assert(is_text_extension(views[i as int]));
            }
            return true;
        }
        i = i + 1;
    }
    false
}

fn str_eq(a: &str, b: &str) -> (r: bool)
    ensures
        r == (a@ == b@),
{
    let n = a.unicode_len();
    if n != b.unicode_len() {
        return false;
    }
    let mut i: usize = 0;
    while i < n
        invariant
            n == a@.len() == b@.len(),
            i <= n,
            forall|j: int| 0 <= j < i ==> a@[j] == b@[j],
        decreases n - i,
    {
        if a.get_char(i) != b.get_char(i) {
            return false;
        }
        i = i + 1;
    }
    proof {
        assert(a@ =~= b@);
    }
    true
}

/// Whether a file needs no parsing.
pub open spec fn skips(p: Seq<char>, exists: bool) -> bool {
    if !exists {
        true
    } else {
        match extension(p) {
            Some(e) => is_text_extension(lower_of(e)),
            None => false,
        }
    }
}

impl CacheManager {
    pub fn new(cache_dir: String) -> (r: CacheManager)
        ensures
            r.cache_dir == cache_dir,
    {
        CacheManager { cache_dir }
    }

    /// Whether a file needs no parsing: it does not exist (`exists` is what
    /// the file system reports), or its extension, lowercased, names a text format.
    pub fn should_skip_file(&self, file_path: &str, exists: bool) -> (r: bool)
        ensures
            r == skips(file_path@, exists),
    {
        if !exists {
            return true;
        }
        match file_name_of(file_path) {
            None => false,
            Some(name) => {
                let n = name.as_str().unicode_len();
                let d = after_last_in(name.as_str(), n, '.');
                proof {
                    assert(name@.subrange(0, n as int) =~= name@);
                    lemma_after_last_bounds(name@, '.');
                }
                if d > 1 {
                    let ext = name.as_str().substring_char(d, n);
                    let lower = lowercase(ext);
                    is_text_extension_exec(lower.as_str())
                } else {
                    false
                }
            },
        }
    }

    /// Where the cached metadata of `file_path` is kept:
    /// `<cache_dir>/<file name>.metadata.json`.
    pub fn get_metadata_path(&self, file_path: &str) -> (r: String)
        requires
            file_name(file_path@) is Some,
        ensures
            r@ == join_path(
                self.cache_dir@,
                file_name(file_path@)->0 + seq!['.', 'm', 'e', 't', 'a', 'd', 'a', 't', 'a', '.', 'j', 's', 'o', 'n'],
            ),
    {
        let name = file_name_of(file_path);
        let mut leaf = name.unwrap();
        leaf.append(".metadata.json");
        proof {
            reveal_strlit(".metadata.json");
            assert(".metadata.json"@ =~= seq!['.', 'm', 'e', 't', 'a', 'd', 'a', 't', 'a', '.', 'j', 's', 'o', 'n']);
        }
        join(self.cache_dir.as_str(), leaf.as_str())
    }
}

} // verus!
