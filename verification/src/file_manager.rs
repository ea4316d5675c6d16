//! Where things are in the data directory. Paths are composed with `/`, and
//! nothing here touches the disk.

use crate::hierarchy::hidden_name;
use crate::hierarchy::is_hidden_name;
use crate::text::append_chars;
use crate::text::lemma_lex_total;
use crate::text::lemma_lex_transitive;
use crate::text::lex_le;
use crate::text::precedes;
use crate::text::texts;
use crate::text::chars_of;
use crate::text::starts_with;
use crate::text::string_of;
use vstd::prelude::*;

verus! {

/// `rel` seen from the directory `base`: an absolute `rel` stands for itself,
/// and no separator is added to a `base` that is empty or ends with one.
pub open spec fn path_join(base: Seq<char>, rel: Seq<char>) -> Seq<char> {
    if starts_with(rel, seq!['/']) {
        rel
    } else if base.len() == 0 || base.last() == '/' {
        base + rel
    } else {
        base + seq!['/'] + rel
    }
}

/// `rel` seen from the directory `base`.
pub fn join_path(base: &Vec<char>, rel: &Vec<char>) -> (r: Vec<char>)
    ensures
        r@ == path_join(base@, rel@),
{
    let mut out: Vec<char> = Vec::new();
    if rel.len() > 0 && rel[0] == '/' {
        assert(rel@.subrange(0, 1) =~= seq!['/']);
        append_chars(&mut out, rel);
        assert(out@ =~= rel@);
        return out;
    }
    proof {
        if rel@.len() > 0 {
            assert(rel@.subrange(0, 1)[0] == rel@[0]);
        }
    }
    append_chars(&mut out, base);
    if base.len() > 0 && base[base.len() - 1] != '/' {
        out.push('/');
    }
    append_chars(&mut out, rel);
    assert(out@ =~= path_join(base@, rel@));
    out
}

/// The directory of derived data, seen from the data directory.
pub open spec fn data_dir() -> Seq<char> {
    ".desktop_data"@
}

/// The file of the statistics in the data directory `local_path`.
pub open spec fn stats_path(local_path: Seq<char>) -> Seq<char> {
    path_join(path_join(local_path, data_dir()), "stats.json"@)
}

/// The file of the dismissed tasks in the data directory `local_path`.
pub open spec fn past_uncompleted_path(local_path: Seq<char>) -> Seq<char> {
    path_join(path_join(local_path, data_dir()), "past_uncompleted.json"@)
}

/// The file of the configuration in the data directory `local_path`.
pub open spec fn config_path(local_path: Seq<char>) -> Seq<char> {
    path_join(path_join(local_path, data_dir()), "config.json"@)
}

/// The file of the statistics in the data directory `local_path`.
pub fn get_stats_path(local_path: &str) -> (r: String)
    ensures
        r@ == stats_path(local_path@),
{
    let dir = join_path(&chars_of(local_path), &chars_of(".desktop_data"));
    string_of(&join_path(&dir, &chars_of("stats.json")))
}

/// The file of the dismissed tasks in the data directory `local_path`.
pub fn get_past_uncompleted_path(local_path: &str) -> (r: String)
    ensures
        r@ == past_uncompleted_path(local_path@),
{
    let dir = join_path(&chars_of(local_path), &chars_of(".desktop_data"));
    string_of(&join_path(&dir, &chars_of("past_uncompleted.json")))
}

/// The file of the configuration in the data directory `local_path`.
pub fn get_config_path(local_path: &str) -> (r: String)
    ensures
        r@ == config_path(local_path@),
{
    let dir = join_path(&chars_of(local_path), &chars_of(".desktop_data"));
    string_of(&join_path(&dir, &chars_of("config.json")))
}

/// Where an attachment goes and how a note refers to it.
#[derive(Clone, Debug)]
pub struct AttachmentPlace {
    /// The directory of the month's attachments, to create where it is missing.
    pub directory: String,
    /// The file to write.
    pub file: String,
    /// The path by which a note of the month refers to the attachment.
    pub reference: String,
    /// The file's path from the root of the tree.
    pub versioned: String,
}

/// The directory of the attachments of a month, seen from `base`.
pub open spec fn assets_dir(base: Seq<char>, year: Seq<char>, month: Seq<char>) -> Seq<char> {
    path_join(path_join(path_join(base, year), month), "assets"@)
}

/// The path by which a note refers to the attachment `filename` of its month.
pub open spec fn attachment_reference(filename: Seq<char>) -> Seq<char> {
    "assets/"@ + filename
}

/// The path from the root of the tree of what `relative` names in the
/// directory of the month.
pub open spec fn path_in_month(year: Seq<char>, month: Seq<char>, relative: Seq<char>) -> Seq<
    char,
> {
    year + seq!['/'] + month + seq!['/'] + relative
}

/// The path of an attachment from the root of the tree.
pub open spec fn attachment_path(year: Seq<char>, month: Seq<char>, filename: Seq<char>) -> Seq<
    char,
> {
    path_in_month(year, month, attachment_reference(filename))
}

/// The views of the items of `v`.
pub open spec fn name_views(v: Seq<String>) -> Seq<Seq<char>> {
    Seq::new(v.len(), |i: int| v[i]@)
}

/// The names among `names` that do not begin with a dot, in their order.
pub open spec fn visible(names: Seq<Seq<char>>) -> Seq<Seq<char>>
    decreases names.len(),
{
    if names.len() == 0 {
        Seq::empty()
    } else if is_hidden_name(names.last()) {
        visible(names.drop_last())
    } else {
        visible(names.drop_last()).push(names.last())
    }
}

/// How many names at the start of `s` come before `name` or are `name`.
pub open spec fn not_after(s: Seq<Seq<char>>, name: Seq<char>) -> nat
    decreases s.len(),
{
    if s.len() > 0 && lex_le(s[0], name) {
        1 + not_after(s.skip(1), name)
    } else {
        0
    }
}

/// The names `s` in the order of strings.
pub open spec fn in_order(s: Seq<Seq<char>>) -> Seq<Seq<char>>
    decreases s.len(),
{
    if s.len() == 0 {
        Seq::empty()
    } else {
        let before = in_order(s.drop_last());
        before.insert(not_after(before, s.last()) as int, s.last())
    }
}

/// No name of `s` comes before the name in front of it.
pub open spec fn ascending_names(s: Seq<Seq<char>>) -> bool {
    forall|i: int, j: int| 0 <= i < j < s.len() ==> lex_le(#[trigger] s[i], #[trigger] s[j])
}

/// In an ascending list the names that `not_after` counts are all those that
/// do not come after `name`.
pub proof fn lemma_not_after_splits(s: Seq<Seq<char>>, name: Seq<char>)
    requires
        ascending_names(s),
    ensures
        not_after(s, name) <= s.len(),
        forall|i: int| 0 <= i < not_after(s, name) ==> lex_le(#[trigger] s[i], name),
        forall|i: int| not_after(s, name) <= i < s.len() ==> lex_le(name, #[trigger] s[i]),
    decreases s.len(),
{
    if s.len() > 0 && lex_le(s[0], name) {
        let rest = s.skip(1);
        assert forall|i: int, j: int| 0 <= i < j < rest.len() implies lex_le(
            #[trigger] rest[i],
            #[trigger] rest[j],
        ) by {
            assert(rest[i] == s[i + 1]);
            assert(rest[j] == s[j + 1]);
        }
        lemma_not_after_splits(rest, name);
        assert forall|i: int| 0 <= i < not_after(s, name) implies lex_le(#[trigger] s[i], name) by {
            if i > 0 {
                assert(rest[i - 1] == s[i]);
            }
        }
        assert forall|i: int| not_after(s, name) <= i < s.len() implies lex_le(
            name,
            #[trigger] s[i],
        ) by {
            assert(rest[i - 1] == s[i]);
        }
    } else if s.len() > 0 {
        lemma_lex_total(s[0], name);
        assert forall|i: int| 0 <= i < s.len() implies lex_le(name, #[trigger] s[i]) by {
            if i > 0 {
                assert(lex_le(s[0], s[i]));
                lemma_lex_transitive(name, s[0], s[i]);
            }
        }
    }
}

/// The names in order are ascending, and they are as many as the names given.
pub proof fn lemma_in_order_ascending(s: Seq<Seq<char>>)
    ensures
        ascending_names(in_order(s)),
        in_order(s).len() == s.len(),
    decreases s.len(),
{
    if s.len() > 0 {
        let before = in_order(s.drop_last());
        let name = s.last();
        lemma_in_order_ascending(s.drop_last());
        lemma_not_after_splits(before, name);
        let k = not_after(before, name) as int;
        let after = before.insert(k, name);
        assert forall|i: int, j: int| 0 <= i < j < after.len() implies lex_le(
            #[trigger] after[i],
            #[trigger] after[j],
        ) by {
            let bi = if i < k { i } else { i - 1 };
            let bj = if j < k { j } else { j - 1 };
            if i != k {
                assert(after[i] == before[bi]);
            }
            if j != k {
                assert(after[j] == before[bj]);
            }
            if i != k && j != k {
                assert(lex_le(before[bi], before[bj]));
            }
        }
    }
}

/// The names in order are the names given, each as often as it was given.
pub proof fn lemma_in_order_permutes(s: Seq<Seq<char>>)
    ensures
        in_order(s).to_multiset() == s.to_multiset(),
    decreases s.len(),
{
    if s.len() > 0 {
        let before = in_order(s.drop_last());
        lemma_in_order_permutes(s.drop_last());
        lemma_in_order_ascending(s.drop_last());
        lemma_not_after_splits(before, s.last());
        vstd::seq_lib::to_multiset_insert(before, not_after(before, s.last()) as int, s.last());
        vstd::seq_lib::to_multiset_build(s.drop_last(), s.last());
        assert(s.drop_last().push(s.last()) =~= s);
    } else {
        assert(in_order(s) =~= s);
    }
}

/// The names in the order of strings.
pub fn sort_names(names: &Vec<Vec<char>>) -> (r: Vec<Vec<char>>)
    ensures
        texts(r@) == in_order(texts(names@)),
{
    let mut sorted: Vec<Vec<char>> = Vec::new();
    let mut i: usize = 0;
    let ghost all = texts(names@);
    assert(all.take(0) =~= Seq::<Seq<char>>::empty());
    assert(texts(sorted@) =~= Seq::<Seq<char>>::empty());
    while i < names.len()
        invariant
            i <= names.len(),
            all == texts(names@),
            texts(sorted@) =~= in_order(all.take(i as int)),
        decreases names.len() - i,
    {
        let name = names[i].clone();
        proof {
            let upto = all.take(i + 1);
            assert(upto.drop_last() =~= all.take(i as int));
            assert(upto.last() == names@[i as int]@);
            assert(name@ =~= names@[i as int]@);
        }
        let ghost before = texts(sorted@);
        let mut k: usize = 0;
        assert(before.skip(0) =~= before);
        while k < sorted.len() && precedes(&sorted[k], &name)
            invariant
                k <= sorted.len(),
                before == texts(sorted@),
                not_after(before, name@) == k + not_after(before.skip(k as int), name@),
            decreases sorted.len() - k,
        {
            proof {
                assert(before.skip(k as int)[0] == sorted@[k as int]@);
                assert(before.skip(k as int).skip(1) =~= before.skip(k + 1));
            }
            k += 1;
        }
        proof {
            if k < sorted.len() {
                assert(before.skip(k as int)[0] == sorted@[k as int]@);
            }
        }
        let ghost placed = name@;
        sorted.insert(k, name);
        assert(texts(sorted@) =~= before.insert(k as int, placed));
        i += 1;
    }
    assert(all.take(i as int) =~= all);
    sorted
}

/// The names as strings.
pub fn strings_of(sorted: &Vec<Vec<char>>) -> (out: Vec<String>)
    ensures
        name_views(out@) == texts(sorted@),
{
    let mut out: Vec<String> = Vec::new();
    let mut k: usize = 0;
    while k < sorted.len()
        invariant
            k <= sorted.len(),
            out.len() == k,
            forall|j: int| 0 <= j < k ==> (#[trigger] out@[j])@ == sorted@[j]@,
        decreases sorted.len() - k,
    {
        out.push(string_of(&sorted[k]));
        k += 1;
    }
    assert(name_views(out@) =~= texts(sorted@));
    out
}

/// The conventions of the data directory.
#[derive(Clone, Copy, Debug, PartialEq, Eq, Structural)]
pub struct FileManager;

impl FileManager {
    pub fn new() -> (r: Self)
        ensures
            r == FileManager,
    {
        FileManager
    }

    /// The file `filepath` of the data directory `base_path`.
    pub fn full_path(&self, base_path: &str, filepath: &str) -> (r: String)
        ensures
            r@ == path_join(base_path@, filepath@),
    {
        string_of(&join_path(&chars_of(base_path), &chars_of(filepath)))
    }

    /// What a read of a file gives: the text found, and the empty text for a
    /// file that does not exist.
    pub fn read_file(&self, found: Option<String>) -> (r: String)
        ensures
            r@ == (match found {
                Some(content) => content@,
                None => Seq::<char>::empty(),
            }),
    {
        match found {
            Some(content) => content,
            None => String::new(),
        }
    }

    /// What a listing of a directory shows, from the names of its entries:
    /// the names that do not begin with a dot, in the order of strings.
    pub fn list_files(&self, names: &Vec<String>) -> (r: Vec<String>)
        ensures
            name_views(r@) == in_order(visible(name_views(names@))),
    {
        let mut shown: Vec<Vec<char>> = Vec::new();
        let mut i: usize = 0;
        let ghost all = name_views(names@);
        assert(all.take(0) =~= Seq::<Seq<char>>::empty());
        assert(texts(shown@) =~= Seq::<Seq<char>>::empty());
        while i < names.len()
            invariant
                i <= names.len(),
                all == name_views(names@),
                texts(shown@) =~= visible(all.take(i as int)),
            decreases names.len() - i,
        {
            proof {
                let upto = all.take(i + 1);
                assert(upto.drop_last() =~= all.take(i as int));
                assert(upto.last() == names@[i as int]@);
            }
            let ghost before = texts(shown@);
            if !hidden_name(names[i].as_str()) {
                let name = chars_of(names[i].as_str());
                shown.push(name);
                assert(texts(shown@) =~= before.push(names@[i as int]@));
            }
            i += 1;
        }
        assert(all.take(i as int) =~= all);
        strings_of(&sort_names(&shown))
    }

    /// The path from the root of the tree of what `relative` names in the
    /// directory of the month: the path by which a file of the month is
    /// committed.
    pub fn in_month(&self, year: &str, month: &str, relative: &str) -> (r: String)
        ensures
            r@ == path_in_month(year@, month@, relative@),
    {
        let mut path = chars_of(year);
        path.push('/');
        append_chars(&mut path, &chars_of(month));
        path.push('/');
        append_chars(&mut path, &chars_of(relative));
        assert(path@ =~= path_in_month(year@, month@, relative@));
        string_of(&path)
    }

    /// Where the attachment `filename` of the month goes in the data
    /// directory `base_path`, and how a note refers to it.
    pub fn upload_attachment(&self, base_path: &str, year: &str, month: &str, filename: &str) -> (r:
        AttachmentPlace)
        ensures
            r.directory@ == assets_dir(base_path@, year@, month@),
            r.file@ == path_join(assets_dir(base_path@, year@, month@), filename@),
            r.reference@ == attachment_reference(filename@),
            r.versioned@ == attachment_path(year@, month@, filename@),
    {
        let in_year = join_path(&chars_of(base_path), &chars_of(year));
        let in_month = join_path(&in_year, &chars_of(month));
        let directory = join_path(&in_month, &chars_of("assets"));
        let name = chars_of(filename);
        let file = join_path(&directory, &name);
        let mut reference = chars_of("assets/");
        append_chars(&mut reference, &name);
        let mut versioned = chars_of(year);
        versioned.push('/');
        append_chars(&mut versioned, &chars_of(month));
        versioned.push('/');
        append_chars(&mut versioned, &reference);
        assert(versioned@ =~= attachment_path(year@, month@, filename@));
        AttachmentPlace {
            directory: string_of(&directory),
            file: string_of(&file),
            reference: string_of(&reference),
            versioned: string_of(&versioned),
        }
    }
}

} // verus!
