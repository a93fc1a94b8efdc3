//! Mining version-control history for every blob a range introduced. The
//! processes run elsewhere; this module decides what to ask them and reads
//! what they answer.
use vstd::prelude::*;
use crate::rules::string_views;
use crate::text::{
    all_digits, chars_of, digits_value, join_path, joined_path, lines_of, parse_u64, split_lines,
    split_words, string_of, sub_chars, trim_chars, trimmed, words_of, all_white,
    lemma_trimmed_ignores_padding, trim_start, trim_end, white_space,
};

verus! {

/// What can go wrong while asking version control.
#[derive(Debug)]
pub enum GitError {
    /// No repository contains the path.
    RepoNotFound { path: String },
    /// A reference named on the command line does not exist.
    RefNotFound { git_ref: String, repo: String },
    /// Explicit paths lie in different repositories.
    MultipleRepos { roots: Vec<String> },
    /// A command exited unsuccessfully, or answered what cannot be read.
    CommandFailed { command: String, exit_code: i32, stderr: String },
    /// The version-control program could not be started.
    Exec { message: String },
}

/// One version of one file, as a commit of the mined range added or modified it.
#[derive(Debug)]
pub struct HistoryBlob {
    /// The path as it stood in that commit (it may be gone at the head).
    pub path: String,
    /// The blob's size in bytes.
    pub size: u64,
    /// The abbreviated commit identifier, for diagnostics.
    pub commit: String,
}

/// A blob a commit introduced, before its size is known.
#[derive(Debug)]
pub struct BlobEntry {
    pub blob_hash: String,
    pub path: String,
    pub commit: String,
}

pub struct BlobEntryView {
    pub blob_hash: Seq<char>,
    pub path: Seq<char>,
    pub commit: Seq<char>,
}

impl View for BlobEntry {
    type V = BlobEntryView;

    open spec fn view(&self) -> BlobEntryView {
        BlobEntryView { blob_hash: self.blob_hash@, path: self.path@, commit: self.commit@ }
    }
}

pub open spec fn entry_views(s: Seq<BlobEntry>) -> Seq<BlobEntryView> {
    s.map_values(|e: BlobEntry| e@)
}

/// `c` is a hexadecimal digit, in either case.
pub open spec fn is_hex(c: char) -> bool {
    ('0' <= c <= '9') || ('a' <= c <= 'f') || ('A' <= c <= 'F')
}

/// The line names a commit: forty hexadecimal digits.
pub open spec fn is_commit_line(l: Seq<char>) -> bool {
    l.len() == 40 && forall|i: int| 0 <= i < l.len() ==> is_hex(#[trigger] l[i])
}

/// The line holds a tab.
pub open spec fn has_tab(l: Seq<char>) -> bool {
    exists|i: int| 0 <= i < l.len() && l[i] == '\t'
}

/// Where the first tab of the line stands.
pub open spec fn first_tab(l: Seq<char>) -> int {
    choose|i: int| 0 <= i < l.len() && l[i] == '\t' && forall|j: int| 0 <= j < i ==> l[j] != '\t'
}

/// The fields of a raw diff line before its path:
/// `:<old mode> <new mode> <old blob> <new blob> <status>`.
pub open spec fn raw_fields(l: Seq<char>) -> Seq<Seq<char>> {
    words_of(l.subrange(0, first_tab(l)))
}

/// The line is a raw diff line with all its fields.
pub open spec fn is_raw_line(l: Seq<char>) -> bool {
    l.len() > 0 && l[0] == ':' && has_tab(l) && raw_fields(l).len() >= 5
}

/// The raw diff line is for a submodule: its new mode is `160000`.
pub open spec fn is_submodule_line(l: Seq<char>) -> bool {
    is_raw_line(l) && raw_fields(l)[1] == "160000"@
}

/// The blob and the path of a raw diff line.
pub struct RawEntryView {
    pub blob: Seq<char>,
    pub path: Seq<char>,
}

/// The new blob and the path that a raw diff line names, unless it is no raw
/// diff line or names a submodule.
pub open spec fn raw_entry(l: Seq<char>) -> Option<RawEntryView> {
    if is_raw_line(l) && !is_submodule_line(l) {
        Some(RawEntryView { blob: raw_fields(l)[3], path: l.subrange(first_tab(l) + 1, l.len() as int) })
    } else {
        None
    }
}

/// The entries that batch tree-diff output lines give, under `root`, where
/// `commit` is the abbreviated commit of the lines so far: a commit line sets
/// it to its first twelve digits; a raw line adds its blob and path.
pub open spec fn diff_tree_from(root: Seq<char>, ls: Seq<Seq<char>>, commit: Seq<char>) -> Seq<
    BlobEntryView,
>
    decreases ls.len(),
{
    if ls.len() == 0 {
        Seq::empty()
    } else if is_commit_line(ls[0]) {
        diff_tree_from(root, ls.drop_first(), ls[0].subrange(0, 12))
    } else {
        match raw_entry(ls[0]) {
            Some(e) => seq![
                BlobEntryView { blob_hash: e.blob, path: joined_path(root, e.path), commit },
            ] + diff_tree_from(root, ls.drop_first(), commit),
            None => diff_tree_from(root, ls.drop_first(), commit),
        }
    }
}

/// The entries of a whole batch tree-diff output.
pub open spec fn diff_tree_entries(root: Seq<char>, out: Seq<char>) -> Seq<BlobEntryView> {
    diff_tree_from(root, lines_of(out), Seq::empty())
}

/// The lines without the submodule lines.
pub open spec fn without_submodules(ls: Seq<Seq<char>>) -> Seq<Seq<char>>
    decreases ls.len(),
{
    if ls.len() == 0 {
        ls
    } else if is_submodule_line(ls[0]) {
        without_submodules(ls.drop_first())
    } else {
        seq![ls[0]] + without_submodules(ls.drop_first())
    }
}

/// Submodule entries never reach the mined entries: taking every submodule
/// line out of the output changes nothing.
pub proof fn lemma_submodule_lines_ignored(
    root: Seq<char>,
    ls: Seq<Seq<char>>,
    commit: Seq<char>,
)
    ensures
        diff_tree_from(root, ls, commit) == diff_tree_from(root, without_submodules(ls), commit),
    decreases ls.len(),
{
    if ls.len() > 0 {
        let l = ls[0];
        let rest = ls.drop_first();
        if is_submodule_line(l) {
            assert(!is_hex(l[0]));
            assert(!is_commit_line(l));
            lemma_submodule_lines_ignored(root, rest, commit);
        } else {
            let w = seq![l] + without_submodules(rest);
            assert(w[0] == l);
            assert(w.drop_first() =~= without_submodules(rest));
            if is_commit_line(l) {
                lemma_submodule_lines_ignored(root, rest, l.subrange(0, 12));
            } else {
                lemma_submodule_lines_ignored(root, rest, commit);
            }
        }
    }
}

/// Whether two character strings are equal.
pub fn same_chars(a: &[char], b: &[char]) -> (r: bool)
    ensures
        r == (a@ == b@),
{
    if a.len() != b.len() {
        return false;
    }
    let mut i: usize = 0;
    while i < a.len()
        invariant
            i <= a@.len() == b@.len(),
            a@.subrange(0, i as int) == b@.subrange(0, i as int),
        decreases a@.len() - i,
    {
        if a[i] != b[i] {
            return false;
        }
        i = i + 1;
        assert(a@.subrange(0, i as int) =~= a@.subrange(0, i - 1).push(a@[i - 1]));
        assert(b@.subrange(0, i as int) =~= b@.subrange(0, i - 1).push(b@[i - 1]));
    }
    assert(a@ =~= a@.subrange(0, a@.len() as int));
    assert(b@ =~= b@.subrange(0, b@.len() as int));
    true
}

fn is_hex_char(c: char) -> (r: bool)
    ensures
        r == is_hex(c),
{
    ('0' <= c && c <= '9') || ('a' <= c && c <= 'f') || ('A' <= c && c <= 'F')
}

fn commit_line(l: &[char]) -> (r: bool)
    ensures
        r == is_commit_line(l@),
{
    if l.len() != 40 {
        return false;
    }
    let mut i: usize = 0;
    while i < l.len()
        invariant
            i <= l@.len(),
            forall|j: int| 0 <= j < i ==> is_hex(#[trigger] l@[j]),
        decreases l@.len() - i,
    {
        if !is_hex_char(l[i]) {
            return false;
        }
        i = i + 1;
    }
    true
}

/// The blob and the path of a raw diff line that is no submodule line.
fn raw_entry_of(l: &[char]) -> (r: Option<(Vec<char>, Vec<char>)>)
    ensures
        raw_entry(l@) is None <==> r is None,
        r is Some ==> match r {
            Some(p) => p.0@ == raw_entry(l@)->0.blob && p.1@ == raw_entry(l@)->0.path,
            None => true,
        },
{
    if l.len() == 0 || l[0] != ':' {
        return None;
    }
    let mut t: usize = 0;
    while t < l.len() && l[t] != '\t'
        invariant
            t <= l@.len(),
            forall|j: int| 0 <= j < t ==> l@[j] != '\t',
        decreases l@.len() - t,
    {
        t = t + 1;
    }
    if t == l.len() {
        return None;
    }
    proof {
        assert(has_tab(l@));
        let k = first_tab(l@);
        assert(l@[k] == '\t' && forall|j: int| 0 <= j < k ==> l@[j] != '\t');
        if k < t {
            assert(l@[k] != '\t');
        }
        if k > t {
            assert(l@[t as int] != '\t');
        }
        assert(k == t);
    }
    let meta = sub_chars(l, 0, t);
    let fields = split_words(meta.as_slice());
    if fields.len() < 5 {
        return None;
    }
    let sub = chars_of("160000");
    if same_chars(fields[1].as_slice(), sub.as_slice()) {
        return None;
    }
    let hash = sub_chars(fields[3].as_slice(), 0, fields[3].len());
    let path = sub_chars(l, t + 1, l.len());
    proof {
        assert(fields[3]@.subrange(0, fields[3]@.len() as int) =~= fields[3]@);
        assert(fields@.map_values(|w: Vec<char>| w@)[1] == fields@[1]@);
        assert(fields@.map_values(|w: Vec<char>| w@)[3] == fields@[3]@);
    }
    Some((hash, path))
}

/// A repository, by the directory at its top.
#[derive(Debug)]
pub struct GitRepo {
    root: String,
}

impl GitRepo {
    /// The repository whose top directory is `root`.
    pub fn new(root: String) -> (r: Self)
        ensures
            r.root_view() == root@,
    {
        GitRepo { root }
    }

    pub closed spec fn root_view(&self) -> Seq<char> {
        self.root@
    }

    pub fn root(&self) -> (r: &str)
        ensures
            r@ == self.root_view(),
    {
        self.root.as_str()
    }

    /// The blobs that the output of one batch tree-diff process names, with
    /// their paths under the repository root and their abbreviated commits.
    pub fn parse_diff_tree(&self, stdout: &str) -> (r: Vec<BlobEntry>)
        ensures
            entry_views(r@) == diff_tree_entries(self.root_view(), stdout@),
    {
        let root = chars_of(self.root.as_str());
        let text = chars_of(stdout);
        let lines = split_lines(text.as_slice());
        let ghost ls = lines@.map_values(|l: Vec<char>| l@);
        let mut out: Vec<BlobEntry> = Vec::new();
        let mut commit: Vec<char> = Vec::new();
        let mut i: usize = 0;
        assert(ls.subrange(0, ls.len() as int) =~= ls);
        assert(entry_views(out@) =~= Seq::<BlobEntryView>::empty());
        assert(commit@ =~= Seq::<char>::empty());
        while i < lines.len()
            invariant
                i <= lines@.len() == ls.len(),
                ls == lines@.map_values(|l: Vec<char>| l@),
                ls == lines_of(stdout@),
                root@ == self.root_view(),
                entry_views(out@) + diff_tree_from(
                    root@,
                    ls.subrange(i as int, ls.len() as int),
                    commit@,
                ) == diff_tree_entries(self.root_view(), stdout@),
            decreases lines@.len() - i,
        {
            let ghost rest = ls.subrange(i as int, ls.len() as int);
            let ghost before = entry_views(out@);
            let line = &lines[i];
            assert(rest[0] == line@);
            assert(rest.drop_first() =~= ls.subrange(i + 1, ls.len() as int));
            if commit_line(line.as_slice()) {
                commit = sub_chars(line.as_slice(), 0, 12);
            } else {
                match raw_entry_of(line.as_slice()) {
                    Some((hash, path)) => {
                        let full = join_path(root.as_slice(), path.as_slice());
                        let e = BlobEntry {
                            blob_hash: string_of(hash.as_slice()),
                            path: string_of(full.as_slice()),
                            commit: string_of(commit.as_slice()),
                        };
                        out.push(e);
                        assert(entry_views(out@) =~= before.push(e@));
                        assert(before.push(e@) + diff_tree_from(
                            root@,
                            rest.drop_first(),
                            commit@,
                        ) =~= before + (seq![e@] + diff_tree_from(
                            root@,
                            rest.drop_first(),
                            commit@,
                        )));
                    },
                    None => {},
                }
            }
            i = i + 1;
        }
        out
    }
}

/// The lines that are not empty, in order.
pub open spec fn nonempty_lines(ls: Seq<Seq<char>>) -> Seq<Seq<char>>
    decreases ls.len(),
{
    if ls.len() == 0 {
        ls
    } else if ls.last().len() == 0 {
        nonempty_lines(ls.drop_last())
    } else {
        nonempty_lines(ls.drop_last()).push(ls.last())
    }
}

/// The lines that are not empty, each placed under `root`.
pub open spec fn paths_under(root: Seq<char>, ls: Seq<Seq<char>>) -> Seq<Seq<char>> {
    nonempty_lines(ls).map_values(|l: Seq<char>| joined_path(root, l))
}

/// The lines of `stdout` that are not empty, each placed under `root` when
/// `root` is given.
fn nonempty_lines_of(stdout: &str, root: Option<&[char]>) -> (r: Vec<String>)
    ensures
        root is None ==> string_views(r@) == nonempty_lines(lines_of(stdout@)),
        root is Some ==> string_views(r@) == paths_under(root->0@, lines_of(stdout@)),
{
    let text = chars_of(stdout);
    let lines = split_lines(text.as_slice());
    let ghost ls = lines@.map_values(|l: Vec<char>| l@);
    let mut out: Vec<String> = Vec::new();
    let mut i: usize = 0;
    while i < lines.len()
        invariant
            i <= lines@.len() == ls.len(),
            ls == lines@.map_values(|l: Vec<char>| l@),
            ls == lines_of(stdout@),
            root is None ==> string_views(out@) == nonempty_lines(ls.subrange(0, i as int)),
            root is Some ==> string_views(out@) == paths_under(root->0@, ls.subrange(0, i as int)),
        decreases lines@.len() - i,
    {
        let ghost before = out@;
        assert(ls.subrange(0, i + 1).drop_last() =~= ls.subrange(0, i as int));
        assert(ls.subrange(0, i + 1).last() == lines@[i as int]@);
        if lines[i].len() > 0 {
            let text = match root {
                Some(r) => join_path(r, lines[i].as_slice()),
                None => sub_chars(lines[i].as_slice(), 0, lines[i].len()),
            };
            assert(lines@[i as int]@.subrange(0, lines@[i as int]@.len() as int) =~= lines@[
                i as int
            ]@);
            out.push(string_of(text.as_slice()));
            assert(string_views(out@) =~= string_views(before).push(text@));
        }
        i = i + 1;
        proof {
            if root is Some {
                assert(string_views(out@) =~= paths_under(root->0@, ls.subrange(0, i as int)));
            }
        }
    }
    assert(ls.subrange(0, ls.len() as int) =~= ls);
    out
}

/// The commit identifiers that a revision-list output names, one per line.
pub fn parse_rev_list(stdout: &str) -> (r: Vec<String>)
    ensures
        string_views(r@) == nonempty_lines(lines_of(stdout@)),
{
    nonempty_lines_of(stdout, None)
}

impl GitRepo {
    /// The paths that a name-only diff output lists, under the repository root.
    pub fn parse_paths(&self, stdout: &str) -> (r: Vec<String>)
        ensures
            string_views(r@) == paths_under(self.root_view(), lines_of(stdout@)),
    {
        let root = chars_of(self.root.as_str());
        nonempty_lines_of(stdout, Some(root.as_slice()))
    }
}

/// How many commits go in one chunk when `n` commits are shared among
/// `units` workers: `n / units` rounded up, and at least one.
pub open spec fn chunk_len(n: nat, units: nat) -> nat {
    let u = if units == 0 {
        1
    } else {
        units
    };
    let c = (n + u - 1) / u as int;
    if c < 1 {
        1
    } else {
        c as nat
    }
}

/// The commits cut into consecutive chunks of `chunk_len` (the last may be
/// shorter), in order.
pub fn commit_chunks(commits: &Vec<String>, units: usize) -> (r: Vec<Vec<String>>)
    ensures
        ({
            let size = chunk_len(commits@.len(), units as nat) as int;
            let n = commits@.len() as int;
            &&& r@.len() == (n + size - 1) / size
            &&& forall|c: int|
                0 <= c < r@.len() ==> string_views((#[trigger] r@[c])@) == string_views(
                    commits@.subrange(c * size, if (c + 1) * size < n {
                        (c + 1) * size
                    } else {
                        n
                    }),
                )
        }),
{
    let n = commits.len();
    let u: usize = if units == 0 {
        1
    } else {
        units
    };
    let size: usize = if n == 0 {
        1
    } else {
        (n - 1) / u + 1
    };
    proof {
        if n > 0 {
            let q = (n as int - 1) / u as int;
            vstd::arithmetic::div_mod::lemma_fundamental_div_mod(n as int - 1, u as int);
            let m = (n as int - 1) % u as int;
            assert(n as int + u - 1 == u * (q + 1) + m) by (nonlinear_arith)
                requires
                    n as int - 1 == u * q + m,
            ;
            vstd::arithmetic::div_mod::lemma_fundamental_div_mod_converse(
                n as int + u - 1,
                u as int,
                q + 1,
                m,
            );
            assert(q >= 0) by {
                vstd::arithmetic::div_mod::lemma_div_pos_is_pos(n as int - 1, u as int);
            }
        } else {
            vstd::arithmetic::div_mod::lemma_fundamental_div_mod_converse(
                u - 1,
                u as int,
                0,
                u - 1,
            );
        }
        assert(size == chunk_len(n as nat, units as nat));
    }
    let mut out: Vec<Vec<String>> = Vec::new();
    let mut start: usize = 0;
    assert(out@.len() == 0);
    assert(out@.len() * size == 0) by (nonlinear_arith)
        requires
            out@.len() == 0,
    ;
    while start < n
        invariant
            n == commits@.len(),
            size >= 1,
            start <= n,
            start == out@.len() * size || (start == n && out@.len() * size >= n && (out@.len() - 1) * size < n),
            out@.len() * size < n + size,
            start < n ==> start == out@.len() * size,
            forall|c: int|
                0 <= c < out@.len() ==> string_views((#[trigger] out@[c])@) == string_views(
                    commits@.subrange(c * size, if (c + 1) * size < n {
                        (c + 1) * size
                    } else {
                        n as int
                    }),
                ),
        decreases n - start,
    {
        let end: usize = if n - start > size {
            start + size
        } else {
            n
        };
        let mut chunk: Vec<String> = Vec::new();
        let mut i: usize = start;
        while i < end
            invariant
                start <= i <= end <= n == commits@.len(),
                chunk@.len() == i - start,
                forall|j: int| 0 <= j < i - start ==> (#[trigger] chunk@[j])@ == commits@[start + j]@,
            decreases end - i,
        {
            chunk.push(commits[i].clone());
            i = i + 1;
        }
        assert(string_views(chunk@) =~= string_views(commits@.subrange(start as int, end as int)));
        let ghost k = out@.len() as int;
        assert(k * size + size == (k + 1) * size) by (nonlinear_arith);
        out.push(chunk);
        start = end;
    }
    proof {
        let k = out@.len() as int;
        let sz = size as int;
        if k == 0 {
            assert(n == 0);
            assert((n as int + sz - 1) / sz == 0) by {
                vstd::arithmetic::div_mod::lemma_fundamental_div_mod_converse(
                    sz - 1,
                    sz,
                    0,
                    sz - 1,
                );
            }
        } else {
            assert((k - 1) * sz == k * sz - sz) by (nonlinear_arith);
            assert(k * sz >= n && (k - 1) * sz < n);
            assert((n as int + sz - 1) / sz == k) by {
                assert((k - 1) * sz + sz == k * sz) by (nonlinear_arith);
                vstd::arithmetic::div_mod::lemma_fundamental_div_mod_converse(
                    n as int + sz - 1,
                    sz,
                    k,
                    n as int + sz - 1 - k * sz,
                );
            }
        }
    }
    out
}

/// The value of an unsigned decimal as `u64::from_str` reads it: an optional
/// `+`, then digits, within range.
pub open spec fn unsigned_value(w: Seq<char>) -> Option<u64> {
    let d = if w.len() > 0 && w[0] == '+' {
        w.drop_first()
    } else {
        w
    };
    if d.len() > 0 && all_digits(d) && digits_value(d) <= u64::MAX {
        Some(digits_value(d) as u64)
    } else {
        None
    }
}

/// The size on a batch size-lookup line `<blob> <type> <size>`.
pub open spec fn batch_line_size(l: Seq<char>) -> Option<u64> {
    let w = words_of(l);
    if w.len() == 3 {
        unsigned_value(w[2])
    } else {
        None
    }
}

fn unsigned_of(w: &[char]) -> (r: Option<u64>)
    ensures
        r == unsigned_value(w@),
{
    if w.len() > 0 && w[0] == '+' {
        let d = sub_chars(w, 1, w.len());
        assert(d@ =~= w@.drop_first());
        parse_u64(d.as_slice())
    } else {
        parse_u64(w)
    }
}

/// Line `j` of the output gives a size.
pub open spec fn batch_line_ok(ls: Seq<Seq<char>>, j: int) -> bool {
    0 <= j < ls.len() && batch_line_size(ls[j]) is Some
}

/// The command named when the size of `hash` cannot be read.
pub open spec fn batch_command(hash: Seq<char>) -> Seq<char> {
    "git cat-file --batch-check ("@ + hash + ")"@
}

/// The sizes that the output of one batch size-lookup process gives, line by
/// line, for the blobs of `entries` in order. A blob whose line is missing or
/// gives no size fails the whole lookup, naming the first such blob; no
/// record is dropped.
pub fn parse_batch_sizes(stdout: &str, entries: &Vec<BlobEntry>) -> (r: Result<Vec<u64>, GitError>)
    ensures
        ({
            let ls = lines_of(stdout@);
            let n = entries@.len();
            &&& r is Ok <==> forall|i: int| 0 <= i < n ==> #[trigger] batch_line_ok(ls, i)
            &&& r is Ok ==> r->Ok_0@ == Seq::new(n, |i: int| batch_line_size(ls[i])->0)
            &&& r is Err ==> exists|i: int|
                0 <= i < n && !#[trigger] batch_line_ok(ls, i) && (forall|j: int|
                    0 <= j < i ==> batch_line_ok(ls, j)) && (r->Err_0 matches GitError::CommandFailed {
                    command,
                    exit_code,
                    ..
                } && exit_code == -1 && command@ == batch_command(entries@[i].blob_hash@))
        }),
{
    let text = chars_of(stdout);
    let lines = split_lines(text.as_slice());
    let ghost ls = lines@.map_values(|l: Vec<char>| l@);
    let n = entries.len();
    let mut sizes: Vec<u64> = Vec::new();
    let mut i: usize = 0;
    while i < n
        invariant
            n == entries@.len(),
            ls == lines@.map_values(|l: Vec<char>| l@),
            ls == lines_of(stdout@),
            i <= n,
            sizes@.len() == i,
            forall|j: int| 0 <= j < i ==> #[trigger] batch_line_ok(ls, j),
            forall|j: int| 0 <= j < i ==> sizes@[j] == batch_line_size(ls[j])->0,
        decreases n - i,
    {
        let command = String::from_str("git cat-file --batch-check (").concat(
            entries[i].blob_hash.as_str(),
        ).concat(")");
        assert(command@ == batch_command(entries@[i as int].blob_hash@));
        if i >= lines.len() {
            assert(!batch_line_ok(ls, i as int));
            return Err(
                GitError::CommandFailed {
                    command,
                    exit_code: -1,
                    stderr: String::from_str("No output line for this blob"),
                },
            );
        }
        let line = &lines[i];
        assert(ls[i as int] == line@);
        let words = split_words(line.as_slice());
        assert(words@.len() == words_of(line@).len());
        if words.len() != 3 {
            assert(!batch_line_ok(ls, i as int));
            return Err(
                GitError::CommandFailed {
                    command,
                    exit_code: -1,
                    stderr: String::from_str("Unexpected output: ").concat(
                        string_of(line.as_slice()).as_str(),
                    ),
                },
            );
        }
        assert(words@.map_values(|w: Vec<char>| w@)[2] == words@[2]@);
        assert(words_of(line@)[2] == words@[2]@);
        match unsigned_of(words[2].as_slice()) {
            Some(v) => {
                sizes.push(v);
            },
            None => {
                assert(!batch_line_ok(ls, i as int));
                return Err(
                    GitError::CommandFailed {
                        command,
                        exit_code: -1,
                        stderr: String::from_str("Could not parse blob size from: ").concat(
                            string_of(line.as_slice()).as_str(),
                        ),
                    },
                );
            },
        }
        i = i + 1;
    }
    assert(sizes@ =~= Seq::new(n as nat, |i: int| batch_line_size(ls[i])->0));
    Ok(sizes)
}

pub open spec fn blob_views(s: Seq<HistoryBlob>) -> Seq<(Seq<char>, u64, Seq<char>)> {
    s.map_values(|b: HistoryBlob| (b.path@, b.size, b.commit@))
}

/// The history records: each entry with the size found for it.
pub fn history_blobs(entries: &Vec<BlobEntry>, sizes: &Vec<u64>) -> (r: Vec<HistoryBlob>)
    requires
        entries@.len() == sizes@.len(),
    ensures
        blob_views(r@) == Seq::new(
            entries@.len(),
            |i: int| (entries@[i].path@, sizes@[i], entries@[i].commit@),
        ),
{
    let n = entries.len();
    let mut out: Vec<HistoryBlob> = Vec::new();
    let mut i: usize = 0;
    while i < n
        invariant
            n == entries@.len() == sizes@.len(),
            i <= n,
            out@.len() == i,
            forall|j: int|
                0 <= j < i ==> (#[trigger] out@[j]).path@ == entries@[j].path@ && out@[j].size
                    == sizes@[j] && out@[j].commit@ == entries@[j].commit@,
        decreases n - i,
    {
        out.push(
            HistoryBlob {
                path: entries[i].path.clone(),
                size: sizes[i],
                commit: entries[i].commit.clone(),
            },
        );
        i = i + 1;
    }
    assert(blob_views(out@) =~= Seq::new(
        n as nat,
        |i: int| (entries@[i].path@, sizes@[i], entries@[i].commit@),
    ));
    out
}

/// The range holds `..` (and so also when it holds `...`).
pub open spec fn has_dots(range: Seq<char>) -> bool {
    exists|i: int| 0 <= i && i + 1 < range.len() && #[trigger] range[i] == '.' && range[i + 1] == '.'
}

/// How a range argument is to be read.
#[derive(Debug)]
pub enum RangeExpansion {
    /// A two-dot or three-dot range, used as written.
    Ready(String),
    /// A bare reference: check that it names a commit, find its merge base
    /// with the head, and use `<merge-base>..HEAD`.
    NeedsMergeBase(String),
}

/// Reads a range argument: ranges with `..` or `...` pass through unchanged;
/// a bare reference must be resolved against the head.
pub fn expand_git_range(range: &str) -> (r: RangeExpansion)
    ensures
        has_dots(range@) ==> (r matches RangeExpansion::Ready(s) && s@ == range@),
        !has_dots(range@) ==> (r matches RangeExpansion::NeedsMergeBase(s) && s@ == range@),
{
    let cs = chars_of(range);
    let mut i: usize = 0;
    let len = cs.len();
    while len > 0 && i < len - 1
        invariant
            cs@ == range@,
            len == cs@.len(),
            i <= cs@.len(),
            forall|j: int| 0 <= j < i && j + 1 < cs@.len() ==> !(#[trigger] cs@[j] == '.' && cs@[j + 1] == '.'),
        decreases cs@.len() - i,
    {
        if cs[i] == '.' && cs[i + 1] == '.' {
            return RangeExpansion::Ready(String::from_str(range));
        }
        i = i + 1;
    }
    RangeExpansion::NeedsMergeBase(String::from_str(range))
}

/// The argument that checks that a reference names a commit: `<ref>^{commit}`.
pub fn commit_check_argument(git_ref: &str) -> (r: String)
    ensures
        r@ == git_ref@ + "^{commit}"@,
{
    String::from_str(git_ref).concat("^{commit}")
}

/// The range from the merge base that a merge-base output names to the head:
/// `<merge-base>..HEAD`.
pub fn merge_base_range(merge_base_stdout: &str) -> (r: String)
    ensures
        r@ == trimmed(merge_base_stdout@) + "..HEAD"@,
{
    let cs = chars_of(merge_base_stdout);
    let base = trim_chars(cs.as_slice());
    string_of(base.as_slice()).concat("..HEAD")
}

/// The top directory that a show-toplevel output names.
pub fn toplevel_root(stdout: &str) -> (r: String)
    ensures
        r@ == trimmed(stdout@),
{
    let cs = chars_of(stdout);
    let t = trim_chars(cs.as_slice());
    string_of(t.as_slice())
}

/// The number a commit-count output gives, or zero where it gives none.
pub fn parse_commit_count(stdout: &str) -> (r: usize)
    ensures
        ({
            let v = unsigned_value(trimmed(stdout@));
            &&& (v is Some && v->0 <= usize::MAX) ==> r == v->0
            &&& !(v is Some && v->0 <= usize::MAX) ==> r == 0
        }),
{
    let cs = chars_of(stdout);
    let t = trim_chars(cs.as_slice());
    match unsigned_of(t.as_slice()) {
        Some(v) => if v <= usize::MAX as u64 {
            v as usize
        } else {
            0
        },
        None => 0,
    }
}

/// The failure of `command`, with its exit code (-1 when it has none) and
/// its trimmed error output.
pub fn command_failed(command: &str, exit_code: Option<i32>, stderr: &str) -> (r: GitError)
    ensures
        r matches GitError::CommandFailed { command: c, exit_code: e, stderr: s } && c@
            == command@ && e as int == (match exit_code {
            Some(x) => x as int,
            None => -1,
        }) && s@ == trimmed(stderr@),
{
    let cs = chars_of(stderr);
    let t = trim_chars(cs.as_slice());
    GitError::CommandFailed {
        command: String::from_str(command),
        exit_code: match exit_code {
            Some(x) => x,
            None => -1,
        },
        stderr: string_of(t.as_slice()),
    }
}

/// A bare reference resolves to `<merge-base>..HEAD`: git prints the merge
/// base as hexadecimal digits followed by a line end (or other whitespace),
/// and the range read from that output is exactly the merge base followed by
/// `..HEAD`.
pub proof fn lemma_merge_base_output(mb: Seq<char>, end: Seq<char>)
    requires
        mb.len() > 0,
        forall|i: int| 0 <= i < mb.len() ==> is_hex(#[trigger] mb[i]),
        all_white(end),
    ensures
        trimmed(mb + end) + "..HEAD"@ == mb + "..HEAD"@,
{
    let e = Seq::<char>::empty();
    assert(all_white(e));
    lemma_trimmed_ignores_padding(e, mb, end);
    assert(e + mb + end =~= mb + end);
    assert(!white_space(mb[0])) by {
        assert(is_hex(mb[0]));
    }
    assert(trim_start(mb) == mb);
    assert(!white_space(mb.last())) by {
        assert(is_hex(mb[mb.len() - 1]));
    }
    assert(trim_end(mb) == mb);
}

/// The entries of path `q`, in order.
pub open spec fn entries_with_path(es: Seq<BlobEntryView>, q: Seq<char>) -> Seq<BlobEntryView>
    decreases es.len(),
{
    if es.len() == 0 {
        es
    } else {
        (if es[0].path == q {
            seq![es[0]]
        } else {
            Seq::empty()
        }) + entries_with_path(es.drop_first(), q)
    }
}

proof fn lemma_entries_with_path_concat(a: Seq<BlobEntryView>, b: Seq<BlobEntryView>, q: Seq<char>)
    ensures
        entries_with_path(a + b, q) == entries_with_path(a, q) + entries_with_path(b, q),
    decreases a.len(),
{
    if a.len() == 0 {
        assert(a + b =~= b);
        assert(entries_with_path(a, q) + entries_with_path(b, q) =~= entries_with_path(b, q));
    } else {
        assert((a + b)[0] == a[0]);
        assert((a + b).drop_first() =~= a.drop_first() + b);
        lemma_entries_with_path_concat(a.drop_first(), b, q);
        let h = if a[0].path == q {
            seq![a[0]]
        } else {
            Seq::<BlobEntryView>::empty()
        };
        assert(h + (entries_with_path(a.drop_first(), q) + entries_with_path(b, q)) =~= (h
            + entries_with_path(a.drop_first(), q)) + entries_with_path(b, q));
    }
}

proof fn lemma_one_entry(e: BlobEntryView, q: Seq<char>)
    ensures
        entries_with_path(seq![e], q) == (if e.path == q {
            seq![e]
        } else {
            Seq::<BlobEntryView>::empty()
        }),
{
    let s = seq![e];
    assert(s[0] == e);
    assert(s.drop_first() =~= Seq::<BlobEntryView>::empty());
    assert(entries_with_path(Seq::<BlobEntryView>::empty(), q) == Seq::<BlobEntryView>::empty());
    let h = if e.path == q {
        seq![e]
    } else {
        Seq::<BlobEntryView>::empty()
    };
    assert(h + Seq::<BlobEntryView>::empty() =~= h);
}

/// The line introduces an entry whose path under `root` is `q`.
pub open spec fn introduces(root: Seq<char>, l: Seq<char>, q: Seq<char>) -> bool {
    raw_entry(l) is Some && joined_path(root, raw_entry(l)->0.path) == q
}

proof fn lemma_no_introduction(root: Seq<char>, ls: Seq<Seq<char>>, commit: Seq<char>, q: Seq<char>)
    requires
        forall|j: int| 0 <= j < ls.len() ==> !introduces(root, #[trigger] ls[j], q),
    ensures
        entries_with_path(diff_tree_from(root, ls, commit), q).len() == 0,
    decreases ls.len(),
{
    if ls.len() > 0 {
        let rest = ls.drop_first();
        assert forall|j: int| 0 <= j < rest.len() implies !introduces(root, #[trigger] rest[j], q) by {
            assert(rest[j] == ls[j + 1]);
        }
        assert(!introduces(root, ls[0], q));
        if is_commit_line(ls[0]) {
            lemma_no_introduction(root, rest, ls[0].subrange(0, 12), q);
        } else {
            lemma_no_introduction(root, rest, commit, q);
            match raw_entry(ls[0]) {
                Some(e) => {
                    let head = seq![
                        BlobEntryView { blob_hash: e.blob, path: joined_path(root, e.path), commit },
                    ];
                    lemma_entries_with_path_concat(head, diff_tree_from(root, rest, commit), q);
                    lemma_one_entry(head[0], q);
                    assert(head == seq![head[0]]);
                    assert(diff_tree_from(root, ls, commit) == head + diff_tree_from(
                        root,
                        rest,
                        commit,
                    ));
                },
                None => {},
            }
        }
    }
}

/// A path that exactly one line of a batch tree-diff output introduces (a
/// file added once, whatever later commits delete) gives exactly one mined
/// entry with that path, carrying that line's blob. Its size is then the
/// one that the size lookup gives for that blob, as `parse_batch_sizes` and
/// `history_blobs` pair sizes with entries one by one.
pub proof fn lemma_introduced_once(
    root: Seq<char>,
    ls: Seq<Seq<char>>,
    commit: Seq<char>,
    i: int,
    q: Seq<char>,
)
    requires
        0 <= i < ls.len(),
        introduces(root, ls[i], q),
        forall|j: int| 0 <= j < ls.len() && j != i ==> !introduces(root, #[trigger] ls[j], q),
    ensures
        entries_with_path(diff_tree_from(root, ls, commit), q).len() == 1,
        entries_with_path(diff_tree_from(root, ls, commit), q)[0].blob_hash == raw_entry(
            ls[i],
        )->0.blob,
    decreases ls.len(),
{
    let rest = ls.drop_first();
    assert(!is_commit_line(ls[i])) by {
        assert(ls[i].len() > 0 && ls[i][0] == ':');
        assert(!is_hex(ls[i][0]));
    }
    if i == 0 {
        assert forall|j: int| 0 <= j < rest.len() implies !introduces(root, #[trigger] rest[j], q) by {
            assert(rest[j] == ls[j + 1]);
        }
        lemma_no_introduction(root, rest, commit, q);
        let e = raw_entry(ls[0])->0;
        let head = seq![BlobEntryView { blob_hash: e.blob, path: joined_path(root, e.path), commit }];
        lemma_entries_with_path_concat(head, diff_tree_from(root, rest, commit), q);
        lemma_one_entry(head[0], q);
        assert(head == seq![head[0]]);
        assert(diff_tree_from(root, ls, commit) == head + diff_tree_from(root, rest, commit));
        assert(entries_with_path(head, q) + Seq::<BlobEntryView>::empty() =~= entries_with_path(
            head,
            q,
        ));
        assert(entries_with_path(diff_tree_from(root, rest, commit), q) =~= Seq::<
            BlobEntryView,
        >::empty());
    } else {
        assert(rest[i - 1] == ls[i]);
        assert forall|j: int| 0 <= j < rest.len() && j != i - 1 implies !introduces(
            root,
            #[trigger] rest[j],
            q,
        ) by {
            assert(rest[j] == ls[j + 1]);
        }
        assert(!introduces(root, ls[0], q));
        if is_commit_line(ls[0]) {
            lemma_introduced_once(root, rest, ls[0].subrange(0, 12), i - 1, q);
        } else {
            lemma_introduced_once(root, rest, commit, i - 1, q);
            match raw_entry(ls[0]) {
                Some(e) => {
                    let head = seq![
                        BlobEntryView { blob_hash: e.blob, path: joined_path(root, e.path), commit },
                    ];
                    lemma_entries_with_path_concat(head, diff_tree_from(root, rest, commit), q);
                    lemma_one_entry(head[0], q);
                    assert(head == seq![head[0]]);
                    assert(diff_tree_from(root, ls, commit) == head + diff_tree_from(
                        root,
                        rest,
                        commit,
                    ));
                },
                None => {},
            }
        }
    }
}

} // verus!
