//! Workspace script entries: the dispatch-directive scanner that extracts the
//! declared workspace number from a script's text, the filename convention
//! for recognizing scripts, and the sorted listing of discovered entries.

use vstd::prelude::*;

use crate::text::{
    ends_with, last_token, last_token_str, lemma_lex_antisym, lemma_lex_total, lemma_lex_trans,
    lex_le, lex_leq, parse_u32, parse_u32_spec, starts_with, str_ends_with, str_starts_with,
    trim_spec, trim_str,
};

verus! {

/// The token sequence that opens a dispatch directive line.
pub open spec fn directive() -> Seq<char> {
    "hyprctl dispatch workspace"@
}

/// The workspace number declared by one line: the last whitespace-delimited
/// token parsed as a `u32`, provided the trimmed line begins with the
/// directive. A comment or blank line never matches, since its trimmed form
/// cannot begin with the directive.
pub open spec fn line_val(l: Seq<char>) -> Option<u32> {
    let t = trim_spec(l);
    if starts_with(t, directive()) {
        parse_u32_spec(last_token(t))
    } else {
        None
    }
}

/// The lines of `s` still to be scanned, when the scan stands at position
/// `i` and the current line began at `start`: the current line in full,
/// then every later line. Lines are separated by `\n`; a trailing newline
/// does not open a final empty line.
pub open spec fn lines_from(s: Seq<char>, i: int, start: int) -> Seq<Seq<char>>
    decreases s.len() - i,
{
    if i >= s.len() {
        if start < s.len() {
            seq![s.subrange(start, s.len() as int)]
        } else {
            Seq::empty()
        }
    } else if s[i] == '\n' {
        seq![s.subrange(start, i)] + lines_from(s, i + 1, i + 1)
    } else {
        lines_from(s, i + 1, start)
    }
}

/// Advancing the scan to the next newline peels off one full line.
pub proof fn lemma_lines_step(s: Seq<char>, i: int, start: int, p: int)
    requires
        0 <= start <= i <= p < s.len(),
        s[p] == '\n',
        forall|k: int| i <= k < p ==> s[k] != '\n',
    ensures
        lines_from(s, i, start) == seq![s.subrange(start, p)] + lines_from(s, p + 1, p + 1),
    decreases p - i,
{
    if i < p {
        assert(s[i] != '\n');
        lemma_lines_step(s, i + 1, start, p);
    }
}

/// All lines of a text.
pub open spec fn lines_of(s: Seq<char>) -> Seq<Seq<char>> {
    lines_from(s, 0, 0)
}

/// The first line's declared number, or the result of scanning the rest:
/// a line whose last token does not parse is passed over, not an abort.
pub open spec fn scan_lines(ls: Seq<Seq<char>>) -> Option<u32>
    decreases ls.len(),
{
    if ls.len() == 0 {
        None
    } else if line_val(ls[0]) is Some {
        line_val(ls[0])
    } else {
        scan_lines(ls.drop_first())
    }
}

/// The workspace number a script's text declares: the value of the first
/// line that begins (after trimming) with the dispatch directive and whose
/// last token parses as a `u32`; `None` when no line does.
pub open spec fn workspace_num_of(content: Seq<char>) -> Option<u32> {
    scan_lines(lines_of(content))
}

/// Whether the trimmed line begins with the dispatch directive.
fn starts_with_directive(t: &str) -> (r: bool)
    ensures
        r == starts_with(t@, directive()),
{
    str_starts_with(t, "hyprctl dispatch workspace")
}

/// The workspace number one line declares.
fn line_value(line: &str) -> (r: Option<u32>)
    ensures
        r == line_val(line@),
{
    let t = trim_str(line);
    if starts_with_directive(t) {
        let tok = last_token_str(t);
        parse_u32(tok)
    } else {
        None
    }
}

/// Scan a script's text for the `hyprctl dispatch workspace` directive and
/// return the number its first parseable directive line declares.
pub fn parse_workspace_num(content: &str) -> (r: Option<u32>)
    ensures
        r == workspace_num_of(content@),
{
    let n = content.unicode_len();
    let mut i: usize = 0;
    let mut start: usize = 0;
    while i < n
        invariant
            0 <= start <= i <= n,
            n == content@.len(),
            workspace_num_of(content@) == scan_lines(
                lines_from(content@, i as int, start as int),
            ),
        decreases n - i,
    {
        let c = content.get_char(i);
        if c == '\n' {
            let line = content.substring_char(start, i);
            let ghost rest = lines_from(content@, i + 1, i + 1);
            proof {
                assert(lines_from(content@, i as int, start as int) == seq![
                    content@.subrange(start as int, i as int),
                ] + rest);
                assert((seq![content@.subrange(start as int, i as int)] + rest)[0]
                    == content@.subrange(start as int, i as int));
            }
            let v = line_value(line);
            if v.is_some() {
                return v;
            }
            proof {
                assert((seq![content@.subrange(start as int, i as int)] + rest).drop_first()
                    =~= rest);
            }
            start = i + 1;
        }
        i = i + 1;
    }
    if start < n {
        let line = content.substring_char(start, n);
        let ghost ls = lines_from(content@, n as int, start as int);
        proof {
            assert(ls == seq![content@.subrange(start as int, n as int)]);
            assert(ls[0] == content@.subrange(start as int, n as int));
        }
        let v = line_value(line);
        if v.is_some() {
            return v;
        }
        proof {
            assert(ls.drop_first() =~= Seq::<Seq<char>>::empty());
            assert(scan_lines(Seq::<Seq<char>>::empty()) == None::<u32>);
        }
        None
    } else {
        proof {
            assert(lines_from(content@, n as int, start as int) =~= Seq::<Seq<char>>::empty());
            assert(scan_lines(Seq::<Seq<char>>::empty()) == None::<u32>);
        }
        None
    }
}

/// One discovered workspace script.
pub struct WorkspaceEntry {
    /// Display identifier: the filename without the fixed prefix and suffix.
    pub name_short: String,
    /// The literal filename, the stable sort key.
    pub base_name: String,
    /// Where the script lives, used to invoke it.
    pub full_path: String,
    /// The workspace number the script's text declares, if any.
    pub workspace_num: Option<u32>,
}

/// The mathematical content of one entry.
pub ghost struct EntryModel {
    pub name_short: Seq<char>,
    pub base_name: Seq<char>,
    pub full_path: Seq<char>,
    pub workspace_num: Option<u32>,
}

impl View for WorkspaceEntry {
    type V = EntryModel;

    open spec fn view(&self) -> EntryModel {
        EntryModel {
            name_short: self.name_short@,
            base_name: self.base_name@,
            full_path: self.full_path@,
            workspace_num: self.workspace_num,
        }
    }
}

/// One regular file found in the workspace directory, as handed to the
/// listing: its name, its location, and its text when it could be read as
/// text (`None` stands for an unreadable or non-text file).
pub struct ScriptFile {
    pub file_name: String,
    pub full_path: String,
    pub content: Option<String>,
}

/// The filename prefix a workspace script must carry.
pub open spec fn name_prefix() -> Seq<char> {
    "workspace-"@
}

/// The filename suffix a workspace script must carry.
pub open spec fn name_suffix() -> Seq<char> {
    ".sh"@
}

/// Whether a filename is recognized as a workspace script: it begins with
/// `workspace-` and ends with `.sh`, exactly and case-sensitively.
pub open spec fn qualifies(name: Seq<char>) -> bool {
    starts_with(name, name_prefix()) && ends_with(name, name_suffix())
}

/// A qualifying name is long enough that prefix and suffix cannot overlap.
pub proof fn lemma_qualifies_len(name: Seq<char>)
    requires
        qualifies(name),
    ensures
        name.len() >= name_prefix().len() + name_suffix().len(),
        name_prefix().len() == 10,
        name_suffix().len() == 3,
{
    reveal_strlit("workspace-");
    reveal_strlit(".sh");
    assert(name.subrange(0, 10)[7] == name[7] && name_prefix()[7] == 'c');
    assert(name.subrange(0, 10)[8] == name[8] && name_prefix()[8] == 'e');
    assert(name.subrange(0, 10)[9] == name[9] && name_prefix()[9] == '-');
    assert(name.subrange(name.len() - 3, name.len() as int)[0] == name[name.len() - 3]);
    assert(name[name.len() - 3] == '.');
}

/// The display name: the filename with the suffix, then the prefix, removed.
pub open spec fn short_name_of(name: Seq<char>) -> Seq<char>
    recommends
        qualifies(name),
{
    name.subrange(name_prefix().len() as int, name.len() - name_suffix().len())
}

/// The workspace number of a file's text, when the text could be read.
pub open spec fn content_num(content: Option<String>) -> Option<u32> {
    match content {
        Some(c) => workspace_num_of(c@),
        None => None,
    }
}

/// The entry a qualifying file yields.
pub open spec fn entry_of(f: ScriptFile) -> EntryModel {
    EntryModel {
        name_short: short_name_of(f.file_name@),
        base_name: f.file_name@,
        full_path: f.full_path@,
        workspace_num: content_num(f.content),
    }
}

/// The entries of the qualifying files, in the files' order.
pub open spec fn models_of(files: Seq<ScriptFile>) -> Seq<EntryModel> {
    files.filter(|f: ScriptFile| qualifies(f.file_name@)).map_values(|f: ScriptFile| entry_of(f))
}

/// The models of a sequence of built entries.
pub open spec fn views_of(v: Seq<WorkspaceEntry>) -> Seq<EntryModel> {
    v.map_values(|e: WorkspaceEntry| e@)
}

/// Ascending lexicographic order by filename.
pub open spec fn entries_sorted(ms: Seq<EntryModel>) -> bool {
    forall|i: int, j: int|
        0 <= i < j < ms.len() ==> lex_leq(#[trigger] ms[i].base_name, #[trigger] ms[j].base_name)
}

/// No two entries share a filename.
pub open spec fn distinct_names(ms: Seq<EntryModel>) -> bool {
    forall|i: int, j: int|
        0 <= i < j < ms.len() ==> (#[trigger] ms[i].base_name) != (#[trigger] ms[j].base_name)
}

/// Whether this filename is recognized as a workspace script.
pub fn name_qualifies(name: &str) -> (r: bool)
    ensures
        r == qualifies(name@),
{
    str_starts_with(name, "workspace-") && str_ends_with(name, ".sh")
}

/// The display name of a qualifying filename.
fn short_name(name: &str) -> (r: String)
    requires
        qualifies(name@),
    ensures
        r@ == short_name_of(name@),
{
    proof {
        lemma_qualifies_len(name@);
    }
    let n = name.unicode_len();
    let sub = name.substring_char(10, n - 3);
    String::from_str(sub)
}

/// Insert an entry into a run kept sorted by filename.
fn insert_sorted(out: &mut Vec<WorkspaceEntry>, e: WorkspaceEntry)
    requires
        entries_sorted(views_of(old(out)@)),
    ensures
        entries_sorted(views_of(final(out)@)),
        views_of(final(out)@).to_multiset() == views_of(old(out)@).to_multiset().insert(e@),
{
    let ghost orig = views_of(out@);
    let mut j: usize = 0;
    while j < out.len() && !lex_le(e.base_name.as_str(), out[j].base_name.as_str())
        invariant
            0 <= j <= out.len(),
            forall|k: int| 0 <= k < j ==> !lex_leq(e@.base_name, views_of(out@)[k].base_name),
            entries_sorted(views_of(out@)),
            views_of(out@) == orig,
        decreases out.len() - j,
    {
        j = j + 1;
    }
    proof {
        assert(j < out.len() ==> lex_leq(e@.base_name, orig[j as int].base_name));
    }
    out.insert(j, e);
    proof {
        broadcast use vstd::seq_lib::group_to_multiset_ensures;

        let new = views_of(out@);
        assert(new =~= orig.insert(j as int, e@));
        assert forall|i: int, m: int| 0 <= i < m < new.len() implies lex_leq(
            new[i].base_name,
            new[m].base_name,
        ) by {
            if m == j {
                lemma_lex_total(e@.base_name, orig[i].base_name);
            } else if i == j {
                if m - 1 > j {
                    lemma_lex_trans(e@.base_name, orig[j as int].base_name, orig[m - 1].base_name);
                }
            } else if i < j && m > j {
                assert(lex_leq(orig[i].base_name, orig[m - 1].base_name));
            }
        }
        vstd::seq_lib::to_multiset_insert(orig, j as int, e@);
    }
}

/// Build the sorted entry list from the regular files of the workspace
/// directory. Exactly the files whose names qualify appear, each with its
/// short name, its path, and the workspace number its text declares; the
/// result is ordered ascending by filename.
pub fn list_workspaces(files: Vec<ScriptFile>) -> (r: Vec<WorkspaceEntry>)
    ensures
        entries_sorted(views_of(r@)),
        views_of(r@).to_multiset() == models_of(files@).to_multiset(),
{
    broadcast use vstd::seq_lib::group_to_multiset_ensures;

    let mut out: Vec<WorkspaceEntry> = Vec::new();
    let mut i: usize = 0;
    proof {
        assert(views_of(out@) =~= Seq::<EntryModel>::empty());
        assert(files@.take(0) =~= Seq::<ScriptFile>::empty());
        assert(models_of(files@.take(0)) =~= Seq::<EntryModel>::empty());
        Seq::<EntryModel>::empty().to_multiset_ensures();
    }
    while i < files.len()
        invariant
            0 <= i <= files.len(),
            entries_sorted(views_of(out@)),
            views_of(out@).to_multiset() == models_of(files@.take(i as int)).to_multiset(),
        decreases files.len() - i,
    {
        let ghost pre = files@.take(i as int);
        let f = &files[i];
        let q = name_qualifies(f.file_name.as_str());
        proof {
            assert(files@.take(i + 1) =~= pre.push(files@[i as int]));
            pre.lemma_filter_push(files@[i as int], |g: ScriptFile| qualifies(g.file_name@));
            if q {
                assert(models_of(pre.push(files@[i as int])) =~= models_of(pre).push(
                    entry_of(files@[i as int]),
                ));
            } else {
                assert(models_of(pre.push(files@[i as int])) =~= models_of(pre));
            }
        }
        if q {
            let nm = short_name(f.file_name.as_str());
            let num = match &f.content {
                Some(c) => parse_workspace_num(c.as_str()),
                None => None,
            };
            let e = WorkspaceEntry {
                name_short: nm,
                base_name: f.file_name.clone(),
                full_path: f.full_path.clone(),
                workspace_num: num,
            };
            proof {
                assert(e@ == entry_of(files@[i as int]));
                models_of(pre).to_multiset_ensures();
            }
            insert_sorted(&mut out, e);
            proof {
                vstd::seq_lib::to_multiset_build(models_of(pre), entry_of(files@[i as int]));
            }
        }
        i = i + 1;
    }
    proof {
        assert(files@.take(files@.len() as int) =~= files@);
    }
    out
}

/// Two sorted listings with no repeated filename and the same entries are
/// the same sequence: loading an unchanged directory again yields an
/// identical result, whatever order the directory was read in.
pub proof fn lemma_listing_deterministic(a: Seq<EntryModel>, b: Seq<EntryModel>)
    requires
        entries_sorted(a),
        entries_sorted(b),
        distinct_names(a),
        a.to_multiset() == b.to_multiset(),
    ensures
        a == b,
    decreases a.len(),
{
    broadcast use vstd::seq_lib::group_to_multiset_ensures;

    a.to_multiset_ensures();
    b.to_multiset_ensures();
    if a.len() == 0 {
        assert(b.to_multiset().len() == 0);
        assert(a =~= b);
    } else {
        assert(b.len() > 0);
        assert(a.to_multiset().contains(b[0]));
        assert(b.to_multiset().contains(a[0]));
        let i = choose|i: int| 0 <= i < a.len() && a[i] == b[0];
        let j = choose|j: int| 0 <= j < b.len() && b[j] == a[0];
        if i > 0 && j > 0 {
            assert(lex_leq(a[0].base_name, a[i].base_name));
            assert(lex_leq(b[0].base_name, b[j].base_name));
            lemma_lex_antisym(a[0].base_name, a[i].base_name);
            assert(a[0].base_name == a[i].base_name);
            assert(false);
        }
        assert(a[0] == b[0]);
        vstd::seq_lib::to_multiset_remove(a, 0);
        vstd::seq_lib::to_multiset_remove(b, 0);
        assert(a.drop_first() =~= a.remove(0));
        assert(b.drop_first() =~= b.remove(0));
        lemma_listing_deterministic(a.drop_first(), b.drop_first());
        assert(a =~= seq![a[0]] + a.drop_first());
        assert(b =~= seq![b[0]] + b.drop_first());
    }
}

/// A directory listing never repeats a filename; under that guarantee the
/// built entries never repeat one either, so `lemma_listing_deterministic`
/// applies to what `list_workspaces` returns.
pub proof fn lemma_models_distinct(files: Seq<ScriptFile>)
    requires
        forall|i: int, j: int|
            0 <= i < j < files.len() ==> (#[trigger] files[i].file_name)@ != (
            #[trigger] files[j].file_name)@,
    ensures
        distinct_names(models_of(files)),
        forall|m: int|
            0 <= m < models_of(files).len() ==> exists|k: int|
                0 <= k < files.len() && (#[trigger] files[k].file_name)@ == (
                #[trigger] models_of(files)[m]).base_name,
    decreases files.len(),
{
    let p = |f: ScriptFile| qualifies(f.file_name@);
    if files.len() == 0 {
        assert(files.filter(p) =~= files);
        assert(models_of(files) =~= Seq::<EntryModel>::empty());
    } else {
        let prefix = files.drop_last();
        let last = files.last();
        lemma_models_distinct(prefix);
        let mp = models_of(prefix);
        prefix.lemma_filter_push(last, p);
        assert(prefix.push(last) =~= files);
        if qualifies(last.file_name@) {
            assert(models_of(files) =~= mp.push(entry_of(last)));
            assert(entry_of(last).base_name == last.file_name@);
            assert forall|m: int| 0 <= m < mp.len() implies mp[m].base_name
                != last.file_name@ by {
                let k = choose|k: int|
                    0 <= k < prefix.len() && prefix[k].file_name@ == mp[m].base_name;
                assert(files[k].file_name@ == mp[m].base_name);
                assert(files[k].file_name@ != files[files.len() - 1].file_name@);
            }
            assert forall|m: int| 0 <= m < models_of(files).len() implies exists|k: int|
                0 <= k < files.len() && (#[trigger] files[k].file_name)@ == (
                #[trigger] models_of(files)[m]).base_name by {
                if m < mp.len() {
                    let k = choose|k: int|
                        0 <= k < prefix.len() && prefix[k].file_name@ == mp[m].base_name;
                    assert(0 <= k < files.len() && files[k].file_name@ == models_of(
                        files,
                    )[m].base_name);
                } else {
                    assert(files[files.len() - 1].file_name@ == models_of(
                        files,
                    )[m].base_name);
                }
            }
        } else {
            assert(models_of(files) =~= mp);
            assert forall|m: int| 0 <= m < models_of(files).len() implies exists|k: int|
                0 <= k < files.len() && (#[trigger] files[k].file_name)@ == (
                #[trigger] models_of(files)[m]).base_name by {
                let k = choose|k: int|
                    0 <= k < prefix.len() && prefix[k].file_name@ == mp[m].base_name;
                assert(0 <= k < files.len() && files[k].file_name@ == models_of(
                    files,
                )[m].base_name);
            }
        }
    }
}

proof fn lemma_distinct_names_transfer(a: Seq<EntryModel>, b: Seq<EntryModel>)
    requires
        distinct_names(a),
        a.to_multiset() == b.to_multiset(),
    ensures
        distinct_names(b),
{
    broadcast use vstd::seq_lib::group_to_multiset_ensures;

    a.to_multiset_ensures();
    b.to_multiset_ensures();
    assert forall|i: int, j: int| 0 <= i < j < b.len() implies (#[trigger] b[i].base_name) != (
    #[trigger] b[j].base_name) by {
        if b[i].base_name == b[j].base_name {
            if b[i] == b[j] {
                vstd::seq_lib::to_multiset_remove(b, i);
                let br = b.remove(i);
                assert(br[j - 1] == b[j]);
                assert(br.to_multiset().contains(b[j]));
                assert(a.to_multiset().remove(b[i]).contains(b[j]));
                let x = choose|x: int| 0 <= x < a.len() && a[x] == b[i];
                vstd::seq_lib::to_multiset_remove(a, x);
                let ar = a.remove(x);
                assert(ar.to_multiset() =~= a.to_multiset().remove(b[i]));
                assert(ar.to_multiset().contains(b[j]));
                let y = choose|y: int| 0 <= y < ar.len() && ar[y] == b[j];
                if y < x {
                    assert(a[y] == b[j] && a[x] == b[i] && y != x);
                } else {
                    assert(a[y + 1] == b[j] && a[x] == b[i] && y + 1 != x);
                }
                assert(false);
            } else {
                assert(a.to_multiset().contains(b[i]));
                assert(a.to_multiset().contains(b[j]));
                let x = choose|x: int| 0 <= x < a.len() && a[x] == b[i];
                let y = choose|y: int| 0 <= y < a.len() && a[y] == b[j];
                assert(x != y);
                assert(false);
            }
        }
    }
}

/// Loading an unchanged directory again yields an identical ordered
/// sequence: any two results that satisfy the listing's contract for the
/// same files — sorted, made of exactly the qualifying files' entries —
/// are the same sequence, however the directory was read.
pub proof fn lemma_reload_is_identical(files: Seq<ScriptFile>, r1: Seq<EntryModel>, r2: Seq<
    EntryModel,
>)
    requires
        forall|i: int, j: int|
            0 <= i < j < files.len() ==> (#[trigger] files[i].file_name)@ != (
            #[trigger] files[j].file_name)@,
        entries_sorted(r1),
        entries_sorted(r2),
        r1.to_multiset() == models_of(files).to_multiset(),
        r2.to_multiset() == models_of(files).to_multiset(),
    ensures
        r1 == r2,
{
    lemma_models_distinct(files);
    lemma_distinct_names_transfer(models_of(files), r1);
    lemma_listing_deterministic(r1, r2);
}

/// Everything the listing returns obeys the naming convention: an entry's
/// filename qualifies, and its fields are derived from that file alone.
pub proof fn lemma_only_matching_included(files: Seq<ScriptFile>, i: int)
    requires
        0 <= i < models_of(files).len(),
    ensures
        qualifies(models_of(files)[i].base_name),
        models_of(files)[i].name_short == short_name_of(models_of(files)[i].base_name),
    decreases files.len(),
{
    broadcast use vstd::seq_lib::group_filter_ensures;

    let p = |f: ScriptFile| qualifies(f.file_name@);
    let kept = files.filter(p);
    assert(p(kept[i]));
}

} // verus!
