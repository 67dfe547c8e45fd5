//! The catalog's row type and the string model of paths.
//!
//! Paths are plain `/`-separated strings. The logical path of a file is its
//! absolute path with the catalog root (and one separator) removed.

use vstd::prelude::*;

verus! {

/// One record describing an indexed file: its logical and absolute paths,
/// its content signature, its size, the file's modification time and the
/// time the indexer last wrote the record (both in unix seconds).
#[derive(Debug)]
pub struct Entry {
    pub path: String,
    pub abspath: String,
    pub basename: String,
    pub dirname: String,
    pub signature: String,
    pub size: u64,
    pub timestamp: u64,
    pub updated: u64,
}

/// The mathematical image of an `Entry`: each string as a character sequence.
pub ghost struct EntryView {
    pub path: Seq<char>,
    pub abspath: Seq<char>,
    pub basename: Seq<char>,
    pub dirname: Seq<char>,
    pub signature: Seq<char>,
    pub size: u64,
    pub timestamp: u64,
    pub updated: u64,
}

impl View for Entry {
    type V = EntryView;

    open spec fn view(&self) -> EntryView {
        EntryView {
            path: self.path@,
            abspath: self.abspath@,
            basename: self.basename@,
            dirname: self.dirname@,
            signature: self.signature@,
            size: self.size,
            timestamp: self.timestamp,
            updated: self.updated,
        }
    }
}

impl Clone for Entry {
    fn clone(&self) -> (r: Entry)
        ensures
            r@ == self@,
    {
        Entry {
            path: self.path.clone(),
            abspath: self.abspath.clone(),
            basename: self.basename.clone(),
            dirname: self.dirname.clone(),
            signature: self.signature.clone(),
            size: self.size,
            timestamp: self.timestamp,
            updated: self.updated,
        }
    }
}

/// `root` is a prefix of `abspath`, character for character.
pub open spec fn is_path_prefix(root: Seq<char>, abspath: Seq<char>) -> bool {
    root.len() <= abspath.len() && abspath.take(root.len() as int) == root
}

/// The logical path of `abspath` relative to `root`: the characters after
/// `root`, less one leading separator if there is one.
pub open spec fn strip_prefix_spec(root: Seq<char>, abspath: Seq<char>) -> Seq<char> {
    let rest = abspath.skip(root.len() as int);
    if rest.len() > 0 && rest[0] == '/' {
        rest.skip(1)
    } else {
        rest
    }
}

/// The index of the last `/` in `s`, or -1 if there is none.
pub open spec fn last_slash(s: Seq<char>) -> int
    decreases s.len(),
{
    if s.len() == 0 {
        -1
    } else if s[s.len() - 1] == '/' {
        s.len() - 1
    } else {
        last_slash(s.drop_last())
    }
}

/// The characters after the last `/`, or all of `s` if there is none.
pub open spec fn basename_spec(s: Seq<char>) -> Seq<char> {
    s.skip(last_slash(s) + 1)
}

/// The characters before the last `/`; empty if there is none.
pub open spec fn dirname_spec(s: Seq<char>) -> Seq<char> {
    if last_slash(s) >= 0 {
        s.take(last_slash(s))
    } else {
        Seq::empty()
    }
}

proof fn lemma_last_slash_at(s: Seq<char>, j: int)
    requires
        0 <= j < s.len(),
        s[j] == '/',
        forall|k: int| j < k < s.len() ==> s[k] != '/',
    ensures
        last_slash(s) == j,
    decreases s.len(),
{
    if j == s.len() - 1 {
    } else {
        assert(s.drop_last() =~= s.take(s.len() - 1));
        lemma_last_slash_at(s.drop_last(), j);
    }
}

proof fn lemma_no_slash(s: Seq<char>)
    requires
        forall|k: int| 0 <= k < s.len() ==> s[k] != '/',
    ensures
        last_slash(s) == -1,
    decreases s.len(),
{
    if s.len() > 0 {
        assert(s.drop_last() =~= s.take(s.len() - 1));
        lemma_no_slash(s.drop_last());
    }
}

/// The char index just past the last `/` of `s`, or 0 if `s` has no `/`.
fn find_after_last_slash(s: &str) -> (r: usize)
    ensures
        r == last_slash(s@) + 1,
        r <= s@.len(),
{
    let len: usize = s.unicode_len();
    let mut i: usize = len;
    while i > 0
        invariant
            i <= len,
            len == s@.len(),
            forall|k: int| i <= k < s@.len() ==> s@[k] != '/',
        decreases i,
    {
        if s.get_char(i - 1) == '/' {
            proof {
                lemma_last_slash_at(s@, i - 1);
            }
            return i;
        }
        i = i - 1;
    }
    proof {
        lemma_no_slash(s@);
    }
    0
}

/// The logical path of `abspath` relative to `root`: everything after the
/// root prefix, less one leading separator.
pub fn abspath_to_path(root: &str, abspath: &str) -> (r: String)
    requires
        is_path_prefix(root@, abspath@),
    ensures
        r@ == strip_prefix_spec(root@, abspath@),
{
    let rlen: usize = root.unicode_len();
    let alen: usize = abspath.unicode_len();
    let start: usize = if rlen < alen && abspath.get_char(rlen) == '/' {
        rlen + 1
    } else {
        rlen
    };
    let sub = abspath.substring_char(start, alen);
    proof {
        assert(sub@ =~= strip_prefix_spec(root@, abspath@));
    }
    sub.to_owned()
}

impl Entry {
    /// Builds the record for a file at `abspath` under the catalog root
    /// `root`: the logical path is the root-relative remainder, the basename
    /// and dirname are split at the last separator.
    pub fn new(abspath: &str, root: &str, hash: &String, size: u64, mod_timestamp: u64, now_timestamp: u64) -> (e: Entry)
        requires
            is_path_prefix(root@, abspath@),
            abspath@.len() > 0,
            abspath@[abspath@.len() - 1] != '/',
        ensures
            e@.path == strip_prefix_spec(root@, abspath@),
            e@.abspath == abspath@,
            e@.basename == basename_spec(abspath@),
            e@.dirname == dirname_spec(abspath@),
            e@.signature == hash@,
            e@.size == size,
            e@.timestamp == mod_timestamp,
            e@.updated == now_timestamp,
    {
        let path = abspath_to_path(root, abspath);
        let alen: usize = abspath.unicode_len();
        let after: usize = find_after_last_slash(abspath);
        let basename = abspath.substring_char(after, alen).to_owned();
        let dirname = if after > 0 {
            abspath.substring_char(0, after - 1).to_owned()
        } else {
            String::new()
        };
        proof {
            assert(basename@ =~= basename_spec(abspath@));
            assert(dirname@ =~= dirname_spec(abspath@));
        }
        Entry {
            path,
            abspath: abspath.to_owned(),
            basename,
            dirname,
            signature: hash.clone(),
            size,
            timestamp: mod_timestamp,
            updated: now_timestamp,
        }
    }

    /// Builds a record from its fields, unchanged.
    pub fn new_simple(path: &str, abspath: &str, basename: &str, dirname: &str, signature: &str, size: u64, mod_timestamp: u64, now_timestamp: u64) -> (e: Entry)
        ensures
            e@.path == path@,
            e@.abspath == abspath@,
            e@.basename == basename@,
            e@.dirname == dirname@,
            e@.signature == signature@,
            e@.size == size,
            e@.timestamp == mod_timestamp,
            e@.updated == now_timestamp,
    {
        Entry {
            path: path.to_owned(),
            abspath: abspath.to_owned(),
            basename: basename.to_owned(),
            dirname: dirname.to_owned(),
            signature: signature.to_owned(),
            size,
            timestamp: mod_timestamp,
            updated: now_timestamp,
        }
    }
}

} // verus!
