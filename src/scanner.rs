//! Files found under a repository root, the chunks cut from them, and the
//! rules that decide which files are indexed at all.

use vstd::prelude::*;
use crate::text::{chars_of, contains, contains_chars, push_char};
use crate::indexer::lemma_push_contains;
use crate::ranker::strings_view;

verus! {

/// One retrieval unit: a contiguous range of lines of one file revision.
#[derive(Debug, Clone)]
pub struct FileChunk {
    pub file_path: String,
    pub chunk_index: usize,
    pub content: String,
    pub line_start: usize,
    pub line_end: usize,
    pub mtime: u64,
}

/// A file under the repository root: its path relative to the root and its
/// modification time in whole seconds since the epoch.
#[derive(Debug, Clone)]
pub struct FileEntry {
    pub path: String,
    pub mtime: u64,
}

/// What a chunk holds, in mathematical terms.
pub struct ChunkView {
    pub file_path: Seq<char>,
    pub chunk_index: int,
    pub content: Seq<char>,
    pub line_start: int,
    pub line_end: int,
    pub mtime: u64,
}

impl View for FileChunk {
    type V = ChunkView;

    open spec fn view(&self) -> ChunkView {
        ChunkView {
            file_path: self.file_path@,
            chunk_index: self.chunk_index as int,
            content: self.content@,
            line_start: self.line_start as int,
            line_end: self.line_end as int,
            mtime: self.mtime,
        }
    }
}

impl View for FileEntry {
    type V = (Seq<char>, u64);

    open spec fn view(&self) -> (Seq<char>, u64) {
        (self.path@, self.mtime)
    }
}

pub open spec fn entries_view(v: Seq<FileEntry>) -> Seq<(Seq<char>, u64)> {
    v.map_values(|e: FileEntry| e@)
}

impl FileEntry {
    pub fn copy(&self) -> (r: FileEntry)
        ensures
            r@ == self@,
    {
        FileEntry { path: self.path.clone(), mtime: self.mtime }
    }
}

pub open spec fn chunks_view(v: Seq<FileChunk>) -> Seq<ChunkView> {
    v.map_values(|c: FileChunk| c@)
}


/// Position of the last `c` in `s` before position `i`, or -1.
pub open spec fn last_index_before(s: Seq<char>, c: char, i: int) -> int
    decreases i,
{
    if i <= 0 {
        -1
    } else if s[i - 1] == c {
        i - 1
    } else {
        last_index_before(s, c, i - 1)
    }
}

/// The file name of the part of a path before position `end`, as
/// `Path::file_name` finds it: trailing '/' and "." segments are skipped, and
/// a last segment ".." (or none at all) gives no name.
pub open spec fn file_name_before(path: Seq<char>, end: int) -> Option<Seq<char>>
    decreases end,
{
    if end <= 0 || end > path.len() {
        None
    } else if path[end - 1] == '/' {
        file_name_before(path, end - 1)
    } else {
        let start = last_index_before(path, '/', end) + 1;
        let seg = path.subrange(start, end);
        if start < 0 || start >= end {
            None
        } else if seg == seq!['.'] {
            file_name_before(path, start)
        } else if seg == seq!['.', '.'] {
            None
        } else {
            Some(seg)
        }
    }
}

pub open spec fn file_name_of(path: Seq<char>) -> Option<Seq<char>> {
    file_name_before(path, path.len() as int)
}

/// The extension of a path (`Path::extension`): what follows the last '.' of
/// its file name, when that '.' is not the name's first character (so
/// ".gitignore" has none).
pub open spec fn extension_of(path: Seq<char>) -> Option<Seq<char>> {
    match file_name_of(path) {
        None => None,
        Some(name) => {
            let dot = last_index_before(name, '.', name.len() as int);
            if dot <= 0 {
                None
            } else {
                Some(name.subrange(dot + 1, name.len() as int))
            }
        },
    }
}

proof fn lemma_last_index_before_bounds(s: Seq<char>, c: char, i: int)
    requires
        0 <= i <= s.len(),
    ensures
        -1 <= last_index_before(s, c, i) < i,
    decreases i,
{
    if i > 0 && s[i - 1] != c {
        lemma_last_index_before_bounds(s, c, i - 1);
    }
}

/// The extensions of the files that are indexed.
pub open spec fn indexed_extensions() -> Seq<Seq<char>> {
    seq![
        seq!['r', 's'],
        seq!['p', 'y'],
        seq!['j', 's'],
        seq!['t', 's'],
        seq!['j', 's', 'x'],
        seq!['t', 's', 'x'],
        seq!['g', 'o'],
        seq!['j', 'a', 'v', 'a'],
        seq!['c', 'p', 'p'],
        seq!['c'],
        seq!['h'],
        seq!['h', 'p', 'p'],
        seq!['p', 'h', 'p'],
        seq!['r', 'b'],
        seq!['c', 's'],
        seq!['m', 'd'],
        seq!['t', 'x', 't'],
        seq!['j', 's', 'o', 'n'],
        seq!['y', 'm', 'l'],
        seq!['y', 'a', 'm', 'l'],
        seq!['t', 'o', 'm', 'l'],
    ]
}

pub open spec fn is_indexed_extension(ext: Seq<char>) -> bool {
    exists|k: int| 0 <= k < indexed_extensions().len() && #[trigger] indexed_extensions()[k] == ext
}

fn indexed_extension(k: usize) -> (r: Vec<char>)
    requires
        k < 21,
    ensures
        r@ == indexed_extensions()[k as int],
{
    let r = match k {
        0 => vec!['r', 's'],
        1 => vec!['p', 'y'],
        2 => vec!['j', 's'],
        3 => vec!['t', 's'],
        4 => vec!['j', 's', 'x'],
        5 => vec!['t', 's', 'x'],
        6 => vec!['g', 'o'],
        7 => vec!['j', 'a', 'v', 'a'],
        8 => vec!['c', 'p', 'p'],
        9 => vec!['c'],
        10 => vec!['h'],
        11 => vec!['h', 'p', 'p'],
        12 => vec!['p', 'h', 'p'],
        13 => vec!['r', 'b'],
        14 => vec!['c', 's'],
        15 => vec!['m', 'd'],
        16 => vec!['t', 'x', 't'],
        17 => vec!['j', 's', 'o', 'n'],
        18 => vec!['y', 'm', 'l'],
        19 => vec!['y', 'a', 'm', 'l'],
        _ => vec!['t', 'o', 'm', 'l'],
    };
    assert(r@ =~= indexed_extensions()[k as int]);
    r
}

fn last_index_in(s: &Vec<char>, c: char, end: usize) -> (r: Option<usize>)
    requires
        end <= s.len(),
    ensures
        match r {
            Some(i) => last_index_before(s@, c, end as int) == i as int && i < end,
            None => last_index_before(s@, c, end as int) == -1,
        },
{
    let mut i: usize = end;
    while i > 0
        invariant
            i <= end <= s.len(),
            last_index_before(s@, c, i as int) == last_index_before(s@, c, end as int),
        decreases i,
    {
        if s[i - 1] == c {
            return Some(i - 1);
        }
        i = i - 1;
    }
    None
}

pub fn same_chars(a: &Vec<char>, b: &Vec<char>) -> (r: bool)
    ensures
        r == (a@ == b@),
{
    if a.len() != b.len() {
        return false;
    }
    let mut i: usize = 0;
    while i < a.len()
        invariant
            i <= a.len() == b.len(),
            a@.subrange(0, i as int) == b@.subrange(0, i as int),
        decreases a.len() - i,
    {
        if a[i] != b[i] {
            assert(a@[i as int] != b@[i as int]);
            return false;
        }
        assert(a@.subrange(0, i + 1) =~= a@.subrange(0, i as int).push(a@[i as int]));
        assert(b@.subrange(0, i + 1) =~= b@.subrange(0, i as int).push(b@[i as int]));
        i = i + 1;
    }
    assert(a@ =~= a@.subrange(0, i as int));
    assert(b@ =~= b@.subrange(0, i as int));
    true
}

/// Where the file name of `cs` lies (see `file_name_of`).
fn file_name_range(cs: &Vec<char>) -> (r: Option<(usize, usize)>)
    ensures
        match r {
            Some((a, b)) => a <= b <= cs.len() && file_name_of(cs@) == Some(
                cs@.subrange(a as int, b as int),
            ),
            None => file_name_of(cs@) is None,
        },
{
    let mut end: usize = cs.len();
    loop
        invariant
            end <= cs.len(),
            file_name_before(cs@, end as int) == file_name_of(cs@),
        decreases end,
    {
        if end == 0 {
            return None;
        }
        if cs[end - 1] == '/' {
            end = end - 1;
        } else {
            let start = match last_index_in(cs, '/', end) {
                Some(i) => i + 1,
                None => 0,
            };
            proof {
                lemma_last_index_before_bounds(cs@, '/', end - 1);
            }
            let ghost seg = cs@.subrange(start as int, end as int);
            if end - start == 1 && cs[start] == '.' {
                assert(seg =~= seq!['.']);
                end = start;
            } else if end - start == 2 && cs[start] == '.' && cs[start + 1] == '.' {
                assert(seg =~= seq!['.', '.']);
                return None;
            } else {
                proof {
                    assert(seg.len() == end - start);
                    if seg =~= seq!['.'] {
                        assert(seg[0] == cs@[start as int]);
                    }
                    if seg =~= seq!['.', '.'] {
                        assert(seg[0] == cs@[start as int] && seg[1] == cs@[start + 1]);
                    }
                    assert(seg != seq!['.']);
                    assert(seg != seq!['.', '.']);
                    assert(start as int == last_index_before(cs@, '/', end as int) + 1);
                    assert(cs@[end - 1] != '/');
                    assert(0 <= start < end);
                    assert(file_name_before(cs@, end as int) == Some(seg));
                }
                return Some((start, end));
            }
        }
    }
}

/// The extension of a path (see `extension_of`).
pub fn path_extension(path: &str) -> (r: Option<Vec<char>>)
    ensures
        match r {
            Some(e) => extension_of(path@) == Some(e@),
            None => extension_of(path@) is None,
        },
{
    let cs = chars_of(path);
    let (start, end) = match file_name_range(&cs) {
        Some(p) => p,
        None => return None,
    };
    let ghost name = cs@.subrange(start as int, end as int);
    let mut name_chars: Vec<char> = Vec::new();
    let mut k: usize = start;
    while k < end
        invariant
            start <= k <= end <= cs.len(),
            cs@ == path@,
            name == cs@.subrange(start as int, end as int),
            file_name_of(path@) == Some(name),
            name_chars@ == cs@.subrange(start as int, k as int),
        decreases end - k,
    {
        name_chars.push(cs[k]);
        assert(name_chars@ =~= cs@.subrange(start as int, k + 1));
        k = k + 1;
    }
    match last_index_in(&name_chars, '.', name_chars.len()) {
        Some(d) => {
            if d == 0 {
                return None;
            }
            let mut ext: Vec<char> = Vec::new();
            let mut j: usize = d + 1;
            while j < name_chars.len()
                invariant
                    d + 1 <= j <= name_chars.len(),
                    ext@ == name_chars@.subrange(d + 1, j as int),
                decreases name_chars.len() - j,
            {
                ext.push(name_chars[j]);
                assert(ext@ =~= name_chars@.subrange(d + 1, j + 1));
                j = j + 1;
            }
            Some(ext)
        },
        None => None,
    }
}

/// A file is indexed when its extension is one of source code, markup or
/// configuration: rs, py, js, ts, jsx, tsx, go, java, cpp, c, h, hpp, php,
/// rb, cs, md, txt, json, yml, yaml, toml.
pub fn should_process_file(path: &str) -> (r: bool)
    ensures
        r == (extension_of(path@) is Some && is_indexed_extension(extension_of(path@)->0)),
{
    assert(indexed_extensions().len() == 21);
    let found = path_extension(path);
    match found {
        Some(ext) => {
            let mut k: usize = 0;
            while k < 21
                invariant
                    k <= 21,
                    indexed_extensions().len() == 21,
                    extension_of(path@) == Some(ext@),
                    forall|i: int| 0 <= i < k ==> #[trigger] indexed_extensions()[i] != ext@,
                decreases 21 - k,
            {
                let cand = indexed_extension(k);
                if same_chars(&cand, &ext) {
                    assert(indexed_extensions()[k as int] == ext@);
                    return true;
                }
                k = k + 1;
            }
            false
        },
        None => false,
    }
}


/// What `pathdiff::diff_paths` makes of a path and a base, as text: `None`
/// where the path has no form relative to the base.
pub uninterp spec fn relative_of(path: Seq<char>, base: Seq<char>) -> Option<Seq<char>>;

/// Relies on `pathdiff::diff_paths`: the path relative to `base` depends on
/// the two texts alone.
#[verifier::external_body]
fn diff_paths_text(path: &str, base: &str) -> (r: Option<String>)
    ensures
        match r {
            Some(t) => relative_of(path@, base@) == Some(t@),
            None => relative_of(path@, base@) is None,
        },
{
    pathdiff::diff_paths(path, base).map(|p| p.to_string_lossy().to_string())
}

/// The entry of a file found at `path` under the repository root `root`:
/// its path relative to the root (the path itself where it has none), and
/// its modification time.
pub fn entry_for(path: &str, root: &str, mtime: u64) -> (r: FileEntry)
    ensures
        r.path@ == match relative_of(path@, root@) {
            Some(t) => t,
            None => path@,
        },
        r.mtime == mtime,
{
    let relative = match diff_paths_text(path, root) {
        Some(t) => t,
        None => path.to_owned(),
    };
    FileEntry { path: relative, mtime }
}

/// The line that keeps the index directory out of version control.
pub open spec fn index_dir_entry() -> Seq<char> {
    seq!['.', 'c', 'o', 'd', 'e', '-', 's', 'e', 'a', 'r', 'c', 'h', '/']
}

/// What to do with the repository's `.gitignore` so that it names the index
/// directory.
#[derive(Debug, Clone)]
pub enum GitignoreEdit {
    /// Create the file with this text.
    Create(String),
    /// Append this text to the file.
    Append(String),
    /// The file already names the directory.
    Unchanged,
}

/// A missing `.gitignore` is created holding the entry on a line of its own;
/// one that does not hold the entry gets it appended on a new line.
pub fn gitignore_edit(existing: Option<&str>) -> (r: GitignoreEdit)
    ensures
        match existing {
            None => r matches GitignoreEdit::Create(t) && t@ == index_dir_entry().push('\n'),
            Some(c) => if contains(c@, index_dir_entry()) {
                r matches GitignoreEdit::Unchanged
            } else {
                r matches GitignoreEdit::Append(t) && t@ == seq!['\n'] + index_dir_entry().push(
                    '\n',
                )
            },
        },
{
    let entry = vec!['.', 'c', 'o', 'd', 'e', '-', 's', 'e', 'a', 'r', 'c', 'h', '/'];
    assert(entry@ =~= index_dir_entry());
    let mut line = String::new();
    let mut i: usize = 0;
    while i < entry.len()
        invariant
            i <= entry.len(),
            line@ == entry@.subrange(0, i as int),
        decreases entry.len() - i,
    {
        push_char(&mut line, entry[i]);
        assert(line@ =~= entry@.subrange(0, i + 1));
        i = i + 1;
    }
    assert(entry@.subrange(0, entry.len() as int) =~= entry@);
    push_char(&mut line, '\n');
    match existing {
        None => GitignoreEdit::Create(line),
        Some(c) => {
            let cs = chars_of(c);
            if contains_chars(&cs, &entry) {
                GitignoreEdit::Unchanged
            } else {
                let mut t = String::new();
                push_char(&mut t, '\n');
                let lc = chars_of(line.as_str());
                let mut k: usize = 0;
                while k < lc.len()
                    invariant
                        k <= lc.len(),
                        t@ == seq!['\n'] + lc@.subrange(0, k as int),
                    decreases lc.len() - k,
                {
                    push_char(&mut t, lc[k]);
                    assert(t@ =~= seq!['\n'] + lc@.subrange(0, k + 1));
                    k = k + 1;
                }
                assert(lc@.subrange(0, lc.len() as int) =~= lc@);
                GitignoreEdit::Append(t)
            }
        },
    }
}

/// An exclusion pattern as an ignore override: a pattern that starts with
/// '!' already excludes, any other gets a '!' in front.
pub fn exclusion_override(pattern: &str) -> (r: String)
    ensures
        r@ == if pattern@.len() > 0 && pattern@[0] == '!' {
            pattern@
        } else {
            seq!['!'] + pattern@
        },
{
    let cs = chars_of(pattern);
    if cs.len() > 0 && cs[0] == '!' {
        return pattern.to_owned();
    }
    let mut t = String::new();
    push_char(&mut t, '!');
    let mut k: usize = 0;
    while k < cs.len()
        invariant
            k <= cs.len(),
            cs@ == pattern@,
            t@ == seq!['!'] + cs@.subrange(0, k as int),
        decreases cs.len() - k,
    {
        push_char(&mut t, cs[k]);
        assert(t@ =~= seq!['!'] + cs@.subrange(0, k + 1));
        k = k + 1;
    }
    assert(cs@.subrange(0, cs.len() as int) =~= cs@);
    t
}

pub open spec fn chunk_path_seq(chunks: Seq<FileChunk>) -> Seq<Seq<char>> {
    chunks.map_values(|c: FileChunk| c.file_path@)
}

/// The files that a batch of chunks belongs to, each once, in the order of
/// their first chunk.
pub fn chunk_paths(chunks: &Vec<FileChunk>) -> (r: Vec<String>)
    ensures
        strings_view(r@).no_duplicates(),
        strings_view(r@).to_set() == chunk_path_seq(chunks@).to_set(),
{
    let ghost all = chunk_path_seq(chunks@);
    let mut out: Vec<String> = Vec::new();
    let mut k: usize = 0;
    while k < chunks.len()
        invariant
            k <= chunks.len(),
            all == chunk_path_seq(chunks@),
            strings_view(out@).no_duplicates(),
            strings_view(out@).to_set() == all.subrange(0, k as int).to_set(),
        decreases chunks.len() - k,
    {
        let p = &chunks[k].file_path;
        let ghost ov = strings_view(out@);
        let mut j: usize = 0;
        while j < out.len() && out[j] != *p
            invariant
                j <= out.len(),
                ov == strings_view(out@),
                forall|i: int| 0 <= i < j ==> ov[i] != p@,
            decreases out.len() - j,
        {
            j = j + 1;
        }
        proof {
            assert(all.subrange(0, k + 1) =~= all.subrange(0, k as int).push(p@));
            assert forall|a: Seq<char>| all.subrange(0, k + 1).contains(a) <==> all.subrange(
                0,
                k as int,
            ).contains(a) || a == p@ by {
                lemma_push_contains(all.subrange(0, k as int), p@, a);
            }
        }
        if j == out.len() {
            let c = p.clone();
            out.push(c);
            proof {
                assert(strings_view(out@) =~= ov.push(p@));
                assert forall|a: Seq<char>| ov.push(p@).contains(a) <==> ov.contains(a) || a
                    == p@ by {
                    lemma_push_contains(ov, p@, a);
                }
                assert(!ov.contains(p@));
                assert forall|a: Seq<char>| #[trigger]
                    strings_view(out@).to_set().contains(a) <==> all.subrange(0, k + 1).to_set().contains(a) by {
                    assert(ov.to_set().contains(a) <==> all.subrange(0, k as int).to_set().contains(a));
                }
                assert(strings_view(out@).to_set() =~= all.subrange(0, k + 1).to_set());
                assert forall|a: int, b: int|
                    0 <= a < strings_view(out@).len() && 0 <= b < strings_view(out@).len() && a
                        != b implies strings_view(out@)[a] != strings_view(out@)[b] by {
                    if a < ov.len() && b < ov.len() {
                        assert(ov[a] != ov[b]);
                    } else if a < ov.len() {
                        assert(ov.contains(ov[a]));
                    } else {
                        assert(ov.contains(ov[b]));
                    }
                }
            }
        } else {
            proof {
                assert(ov.contains(p@)) by {
                    assert(ov[j as int] == p@);
                }
                assert(ov.to_set().contains(p@));
                assert(all.subrange(0, k as int).to_set().contains(p@));
                assert forall|a: Seq<char>| #[trigger]
                    strings_view(out@).to_set().contains(a) <==> all.subrange(0, k + 1).to_set().contains(a) by {
                    assert(ov.to_set().contains(a) <==> all.subrange(0, k as int).to_set().contains(a));
                }
                assert(strings_view(out@).to_set() =~= all.subrange(0, k + 1).to_set());
            }
        }
        k = k + 1;
    }
    assert(all.subrange(0, chunks.len() as int) =~= all);
    out
}

} // verus!
