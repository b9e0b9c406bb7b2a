//! Groups of question files: files that share a name, wherever they lie,
//! form one group, listed in ascending order of name.

use vstd::prelude::*;
use crate::question::{Question, strings_view};
use crate::text::{
    chars_of,
    compare_text,
    string_from_chars,
    string_of,
    text_lt,
    lemma_text_lt_irreflexive,
    lemma_text_lt_transitive,
    lemma_text_lt_total,
};

verus! {

/// A file found under the scanned roots: its path and its file name.
#[derive(Debug)]
pub struct ScannedFile {
    pub path: String,
    pub file_name: String,
}

/// The files of one group name, and the questions loaded from them while
/// the group is active.
#[derive(Debug)]
pub struct QuestionGroupDetails {
    pub group_name: String,
    pub questions: Vec<Question>,
    pub paths: Vec<String>,
    pub is_active: bool,
}

/// A file name with the `.sll` extension.
pub open spec fn is_question_file(name: Seq<char>) -> bool {
    let n = name.len();
    n >= 4 && name[n - 4] == '.' && name[n - 3] == 's' && name[n - 2] == 'l' && name[n - 1] == 'l'
}

/// A question file's name without the extension.
pub open spec fn group_key(name: Seq<char>) -> Seq<char> {
    name.take(name.len() - 4)
}

/// The paths of the question files whose name gives `key`, in order.
pub open spec fn paths_for_key(files: Seq<ScannedFile>, key: Seq<char>) -> Seq<Seq<char>>
    decreases files.len(),
{
    if files.len() == 0 {
        Seq::empty()
    } else {
        let rest = paths_for_key(files.drop_last(), key);
        let f = files.last();
        if is_question_file(f.file_name@) && group_key(f.file_name@) == key {
            rest.push(f.path@)
        } else {
            rest
        }
    }
}

/// The group names ascend strictly, so that no name comes twice.
pub open spec fn names_ascending(groups: Seq<QuestionGroupDetails>) -> bool {
    forall|i: int, j: int|
        0 <= i < j < groups.len() ==> text_lt(
            #[trigger] groups[i].group_name@,
            #[trigger] groups[j].group_name@,
        )
}

/// Some group has the name `key`.
pub open spec fn has_group(groups: Seq<QuestionGroupDetails>, key: Seq<char>) -> bool {
    exists|i: int| 0 <= i < groups.len() && #[trigger] groups[i].group_name@ == key
}

/// `g` is the inactive group of the files whose name gives its name.
pub open spec fn group_of_files(g: QuestionGroupDetails, files: Seq<ScannedFile>) -> bool {
    &&& strings_view(g.paths@) == paths_for_key(files, g.group_name@)
    &&& g.paths@.len() > 0
    &&& g.questions@.len() == 0
    &&& !g.is_active
}

/// `groups` holds one inactive group for each name of the question files,
/// in ascending order of name, with the paths of those files in their order.
pub open spec fn is_grouping_of(groups: Seq<QuestionGroupDetails>, files: Seq<ScannedFile>) -> bool {
    &&& names_ascending(groups)
    &&& forall|i: int| 0 <= i < groups.len() ==> group_of_files(#[trigger] groups[i], files)
    &&& forall|k: int|
        0 <= k < files.len() && is_question_file(files[k].file_name@) ==> has_group(
            groups,
            group_key(#[trigger] files[k].file_name@),
        )
}

/// Tells whether a file name has the `.sll` extension.
fn has_question_extension(cs: &Vec<char>) -> (r: bool)
    ensures
        r == is_question_file(cs@),
{
    let n = cs.len();
    n >= 4 && cs[n - 4] == '.' && cs[n - 3] == 's' && cs[n - 2] == 'l' && cs[n - 1] == 'l'
}

proof fn lemma_paths_push(files: Seq<ScannedFile>, f: ScannedFile, key: Seq<char>)
    ensures
        paths_for_key(files.push(f), key) == if is_question_file(f.file_name@) && group_key(
            f.file_name@,
        ) == key {
            paths_for_key(files, key).push(f.path@)
        } else {
            paths_for_key(files, key)
        },
{
    assert(files.push(f).drop_last() =~= files);
}

proof fn lemma_paths_nonempty(files: Seq<ScannedFile>, key: Seq<char>)
    requires
        paths_for_key(files, key).len() > 0,
    ensures
        exists|k: int|
            0 <= k < files.len() && is_question_file(#[trigger] files[k].file_name@) && group_key(
                files[k].file_name@,
            ) == key,
    decreases files.len(),
{
    let f = files.last();
    if is_question_file(f.file_name@) && group_key(f.file_name@) == key {
        assert(files[files.len() - 1] == f);
    } else {
        lemma_paths_nonempty(files.drop_last(), key);
        let k = choose|k: int|
            0 <= k < files.len() - 1 && is_question_file(#[trigger] files.drop_last()[k].file_name@)
                && group_key(files.drop_last()[k].file_name@) == key;
        assert(files[k] == files.drop_last()[k]);
    }
}

/// The position of the group named `key`.
pub open spec fn group_index(groups: Seq<QuestionGroupDetails>, key: Seq<char>) -> int {
    choose|i: int| 0 <= i < groups.len() && #[trigger] groups[i].group_name@ == key
}

/// What adding the file at `path`, of group name `key`, to the ascending
/// groups `g0` gives: the group of that name takes the path at the end of
/// its paths; without one, a new inactive group with that one path goes in
/// at the place that keeps the names ascending.
pub open spec fn add_result(
    g0: Seq<QuestionGroupDetails>,
    key: Seq<char>,
    path: Seq<char>,
    r: Seq<QuestionGroupDetails>,
) -> bool {
    if has_group(g0, key) {
        let i = group_index(g0, key);
        &&& r.len() == g0.len()
        &&& forall|j: int| 0 <= j < g0.len() && j != i ==> #[trigger] r[j] == g0[j]
        &&& r[i].group_name@ == key
        &&& strings_view(r[i].paths@) == strings_view(g0[i].paths@).push(path)
        &&& r[i].questions@ == g0[i].questions@
        &&& r[i].is_active == g0[i].is_active
    } else {
        exists|p: int|
            0 <= p <= g0.len() && r.len() == g0.len() + 1 && r.subrange(0, p) == g0.subrange(0, p)
                && r.subrange(p + 1, r.len() as int) == g0.subrange(p, g0.len() as int) && {
                let g = #[trigger] r[p];
                &&& g.group_name@ == key
                &&& strings_view(g.paths@) == seq![path]
                &&& g.questions@.len() == 0
                &&& !g.is_active
            }
    }
}

/// Adds the file at `path`, of group name `key`, to the ascending groups.
fn add_to_groups(groups: Vec<QuestionGroupDetails>, key: String, path: String) -> (r: Vec<
    QuestionGroupDetails,
>)
    requires
        names_ascending(groups@),
    ensures
        add_result(groups@, key@, path@, r@),
        names_ascending(r@),
{
    let ghost orig = groups@;
    let mut acc = groups;
    let mut j: usize = 0;
    while j < acc.len()
        invariant
            acc@ == orig,
            orig == groups@,
            j <= acc@.len(),
            names_ascending(acc@),
            forall|k: int| 0 <= k < j ==> text_lt(#[trigger] acc@[k].group_name@, key@),
        decreases acc@.len() - j,
    {
        let c = compare_text(acc[j].group_name.as_str(), key.as_str());
        if c == 0 {
            let ghost a0 = acc@;
            proof {
                assert forall|k: int| 0 <= k < a0.len() && #[trigger] a0[k].group_name@ == key@
                    implies k == j by {
                    if k < j {
                        lemma_text_lt_irreflexive(key@);
                    } else if k > j {
                        assert(text_lt(a0[j as int].group_name@, a0[k].group_name@));
                        lemma_text_lt_irreflexive(key@);
                    }
                }
                assert(has_group(a0, key@));
            }
            let mut group = acc.remove(j);
            let ghost before = group.paths@;
            group.paths.push(path);
            proof {
                assert(strings_view(group.paths@) =~= strings_view(before).push(path@));
            }
            acc.insert(j, group);
            proof {
                assert(acc@ =~= a0.update(j as int, group));
                assert forall|x: int, y: int| 0 <= x < y < acc@.len() implies text_lt(
                    #[trigger] acc@[x].group_name@,
                    #[trigger] acc@[y].group_name@,
                ) by {
                    assert(text_lt(a0[x].group_name@, a0[y].group_name@));
                }
                assert(group_index(a0, key@) == j);
            }
            return acc;
        } else if c > 0 {
            let ghost a0 = acc@;
            let group = QuestionGroupDetails {
                group_name: key,
                questions: Vec::new(),
                paths: vec![path],
                is_active: false,
            };
            proof {
                assert forall|k: int| 0 <= k < a0.len() implies #[trigger] a0[k].group_name@
                    != key@ by {
                    if k < j {
                        lemma_text_lt_irreflexive(key@);
                    } else {
                        if k > j {
                            lemma_text_lt_transitive(
                                key@,
                                a0[j as int].group_name@,
                                a0[k].group_name@,
                            );
                        }
                        lemma_text_lt_irreflexive(key@);
                    }
                }
                assert(strings_view(group.paths@) =~= seq![path@]);
            }
            acc.insert(j, group);
            proof {
                assert forall|x: int, y: int| 0 <= x < y < acc@.len() implies text_lt(
                    #[trigger] acc@[x].group_name@,
                    #[trigger] acc@[y].group_name@,
                ) by {
                    if y == j {
                        assert(text_lt(a0[x].group_name@, key@));
                    } else if x == j {
                        if y - 1 > j {
                            lemma_text_lt_transitive(
                                key@,
                                a0[j as int].group_name@,
                                a0[y - 1].group_name@,
                            );
                        }
                    } else if x < j && y > j {
                        assert(text_lt(a0[x].group_name@, a0[y - 1].group_name@));
                    } else if x > j {
                        assert(text_lt(a0[x - 1].group_name@, a0[y - 1].group_name@));
                    } else {
                        assert(text_lt(a0[x].group_name@, a0[y].group_name@));
                    }
                }
                assert(acc@.subrange(0, j as int) =~= a0.subrange(0, j as int));
                assert(acc@.subrange(j + 1, acc@.len() as int) =~= a0.subrange(
                    j as int,
                    a0.len() as int,
                ));
                assert(acc@[j as int] == group);
                assert(!has_group(a0, key@));
            }
            return acc;
        } else {
            proof {
                lemma_text_lt_total(acc@[j as int].group_name@, key@);
            }
        }
        j = j + 1;
    }
    let ghost a0 = acc@;
    let group = QuestionGroupDetails {
        group_name: key,
        questions: Vec::new(),
        paths: vec![path],
        is_active: false,
    };
    proof {
        assert forall|k: int| 0 <= k < a0.len() implies #[trigger] a0[k].group_name@ != key@ by {
            lemma_text_lt_irreflexive(key@);
        }
        assert(strings_view(group.paths@) =~= seq![path@]);
    }
    acc.push(group);
    proof {
        assert forall|x: int, y: int| 0 <= x < y < acc@.len() implies text_lt(
            #[trigger] acc@[x].group_name@,
            #[trigger] acc@[y].group_name@,
        ) by {
            if y == a0.len() {
                assert(text_lt(a0[x].group_name@, key@));
            } else {
                assert(text_lt(a0[x].group_name@, a0[y].group_name@));
            }
        }
        let p = a0.len() as int;
        assert(acc@.subrange(0, p) =~= a0.subrange(0, p));
        assert(acc@.subrange(p + 1, acc@.len() as int) =~= a0.subrange(p, a0.len() as int));
        assert(acc@[p] == group);
        assert(!has_group(a0, key@));
    }
    acc
}

proof fn lemma_skip_step(groups: Seq<QuestionGroupDetails>, files: Seq<ScannedFile>, f: ScannedFile)
    requires
        is_grouping_of(groups, files),
        !is_question_file(f.file_name@),
    ensures
        is_grouping_of(groups, files.push(f)),
{
    let s = files.push(f);
    assert forall|i: int| 0 <= i < groups.len() implies group_of_files(#[trigger] groups[i], s) by {
        lemma_paths_push(files, f, groups[i].group_name@);
    }
    assert forall|k: int| 0 <= k < s.len() && is_question_file(s[k].file_name@) implies has_group(
        groups,
        group_key(#[trigger] s[k].file_name@),
    ) by {
        assert(k < files.len());
        assert(s[k] == files[k]);
    }
}

proof fn lemma_add_step(
    g0: Seq<QuestionGroupDetails>,
    files: Seq<ScannedFile>,
    f: ScannedFile,
    r: Seq<QuestionGroupDetails>,
)
    requires
        is_grouping_of(g0, files),
        is_question_file(f.file_name@),
        add_result(g0, group_key(f.file_name@), f.path@, r),
        names_ascending(r),
    ensures
        is_grouping_of(r, files.push(f)),
{
    let s = files.push(f);
    let key = group_key(f.file_name@);
    if has_group(g0, key) {
        let i = group_index(g0, key);
        assert forall|k: int| 0 <= k < r.len() implies #[trigger] r[k].group_name@
            == g0[k].group_name@ by {
            if k != i {
                assert(r[k] == g0[k]);
            }
        }
        assert forall|k: int| 0 <= k < r.len() implies group_of_files(#[trigger] r[k], s) by {
            lemma_paths_push(files, f, g0[k].group_name@);
            assert(group_of_files(g0[k], files));
            if k == i {
                assert(g0[i].group_name@ == key);
                assert(strings_view(r[i].paths@).len() == r[i].paths@.len());
            }
            if k != i {
                assert(r[k] == g0[k]);
                if k < i {
                    assert(text_lt(g0[k].group_name@, g0[i].group_name@));
                } else {
                    assert(text_lt(g0[i].group_name@, g0[k].group_name@));
                }
                lemma_text_lt_irreflexive(key);
            }
        }
        assert forall|k: int| 0 <= k < s.len() && is_question_file(s[k].file_name@) implies has_group(
            r,
            group_key(#[trigger] s[k].file_name@),
        ) by {
            if k < files.len() {
                assert(s[k] == files[k]);
                let x = choose|x: int| 0 <= x < g0.len() && #[trigger] g0[x].group_name@
                    == group_key(files[k].file_name@);
                assert(r[x].group_name@ == g0[x].group_name@);
            } else {
                assert(s[k] == f);
                assert(r[i].group_name@ == key);
            }
        }
    } else {
        let p = choose|p: int|
            0 <= p <= g0.len() && r.len() == g0.len() + 1 && r.subrange(0, p) == g0.subrange(0, p)
                && r.subrange(p + 1, r.len() as int) == g0.subrange(p, g0.len() as int) && {
                let g = #[trigger] r[p];
                &&& g.group_name@ == key
                &&& strings_view(g.paths@) == seq![f.path@]
                &&& g.questions@.len() == 0
                &&& !g.is_active
            };
        assert forall|k: int| 0 <= k < p implies #[trigger] r[k] == g0[k] by {
            assert(r.subrange(0, p)[k] == g0.subrange(0, p)[k]);
        }
        assert forall|k: int| p < k < r.len() implies #[trigger] r[k] == g0[k - 1] by {
            assert(r.subrange(p + 1, r.len() as int)[k - p - 1] == g0.subrange(
                p,
                g0.len() as int,
            )[k - p - 1]);
        }
        assert(paths_for_key(files, key).len() == 0) by {
            if paths_for_key(files, key).len() > 0 {
                lemma_paths_nonempty(files, key);
                let k = choose|k: int|
                    0 <= k < files.len() && is_question_file(#[trigger] files[k].file_name@)
                        && group_key(files[k].file_name@) == key;
                assert(has_group(g0, group_key(files[k].file_name@)));
            }
        }
        assert forall|k: int| 0 <= k < r.len() implies group_of_files(#[trigger] r[k], s) by {
            if k == p {
                lemma_paths_push(files, f, key);
                assert(paths_for_key(s, key) =~= seq![f.path@]);
            } else {
                let k0 = if k < p {
                    k
                } else {
                    k - 1
                };
                assert(r[k] == g0[k0]);
                assert(group_of_files(g0[k0], files));
                lemma_paths_push(files, f, g0[k0].group_name@);
                assert(g0[k0].group_name@ != key);
            }
        }
        assert forall|k: int| 0 <= k < s.len() && is_question_file(s[k].file_name@) implies has_group(
            r,
            group_key(#[trigger] s[k].file_name@),
        ) by {
            if k < files.len() {
                assert(s[k] == files[k]);
                let x = choose|x: int| 0 <= x < g0.len() && #[trigger] g0[x].group_name@
                    == group_key(files[k].file_name@);
                if x < p {
                    assert(r[x] == g0[x]);
                } else {
                    assert(r[x + 1] == g0[x]);
                }
            } else {
                assert(s[k] == f);
                assert(r[p].group_name@ == key);
            }
        }
    }
}

/// Groups the question files among `files` by name: one inactive group per
/// name, in ascending order of name, each with the paths of its files in
/// the order in which they were found. Other files are left out.
pub fn collect_groups_from_multiple_paths(files: &Vec<ScannedFile>) -> (r: Vec<
    QuestionGroupDetails,
>)
    ensures
        is_grouping_of(r@, files@),
{
    let mut groups: Vec<QuestionGroupDetails> = Vec::new();
    let mut k: usize = 0;
    proof {
        assert(files@.take(0) =~= Seq::<ScannedFile>::empty());
    }
    while k < files.len()
        invariant
            k <= files@.len(),
            is_grouping_of(groups@, files@.take(k as int)),
        decreases files@.len() - k,
    {
        let f = &files[k];
        let name = chars_of(f.file_name.as_str());
        proof {
            assert(files@.take(k + 1) =~= files@.take(k as int).push(*f));
        }
        if has_question_extension(&name) {
            let key = string_from_chars(&name, 0, name.len() - 4);
            assert(key@ =~= group_key(f.file_name@));
            let path = string_of(f.path.as_str());
            let ghost g0 = groups@;
            groups = add_to_groups(groups, key, path);
            proof {
                lemma_add_step(g0, files@.take(k as int), *f, groups@);
            }
        } else {
            proof {
                lemma_skip_step(groups@, files@.take(k as int), *f);
            }
        }
        k = k + 1;
    }
    proof {
        assert(files@.take(k as int) =~= files@);
    }
    groups
}

proof fn lemma_key_injective(a: Seq<char>, b: Seq<char>)
    requires
        is_question_file(a),
        is_question_file(b),
        group_key(a) == group_key(b),
    ensures
        a == b,
{
    assert(a =~= group_key(a) + seq!['.', 's', 'l', 'l']);
    assert(b =~= group_key(b) + seq!['.', 's', 'l', 'l']);
}

proof fn lemma_paths_at_most_one(files: Seq<ScannedFile>, key: Seq<char>)
    requires
        forall|k: int| 0 <= k < files.len() ==> is_question_file(#[trigger] files[k].file_name@),
        forall|a: int, b: int|
            0 <= a < b < files.len() ==> #[trigger] files[a].file_name@ != #[trigger] files[
                b
            ].file_name@,
    ensures
        paths_for_key(files, key).len() <= 1,
    decreases files.len(),
{
    if files.len() > 0 {
        let rest = files.drop_last();
        assert forall|a: int, b: int|
            0 <= a < b < rest.len() implies #[trigger] rest[a].file_name@ != #[trigger] rest[
                b
            ].file_name@ by {
            assert(rest[a] == files[a] && rest[b] == files[b]);
        }
        lemma_paths_at_most_one(rest, key);
        let f = files.last();
        if group_key(f.file_name@) == key && paths_for_key(rest, key).len() > 0 {
            lemma_paths_nonempty(rest, key);
            let k = choose|k: int|
                0 <= k < rest.len() && is_question_file(#[trigger] rest[k].file_name@) && group_key(
                    rest[k].file_name@,
                ) == key;
            assert(rest[k] == files[k]);
            assert(files[files.len() - 1] == f);
            lemma_key_injective(files[k].file_name@, f.file_name@);
        }
    }
}

/// Question files with distinct names, all under one root, give one group
/// each, and each group holds the one path of its file.
pub proof fn lemma_distinct_files_make_single_groups(
    groups: Seq<QuestionGroupDetails>,
    files: Seq<ScannedFile>,
)
    requires
        is_grouping_of(groups, files),
        forall|k: int| 0 <= k < files.len() ==> is_question_file(#[trigger] files[k].file_name@),
        forall|a: int, b: int|
            0 <= a < b < files.len() ==> #[trigger] files[a].file_name@ != #[trigger] files[
                b
            ].file_name@,
    ensures
        groups.len() == files.len(),
        forall|i: int| 0 <= i < groups.len() ==> (#[trigger] groups[i]).paths@.len() == 1,
{
    assert forall|i: int| 0 <= i < groups.len() implies (#[trigger] groups[i]).paths@.len()
        == 1 by {
        assert(group_of_files(groups[i], files));
        lemma_paths_at_most_one(files, groups[i].group_name@);
        assert(strings_view(groups[i].paths@).len() == groups[i].paths@.len());
    }
    let names = groups.map_values(|g: QuestionGroupDetails| g.group_name@);
    let keys = files.map_values(|f: ScannedFile| group_key(f.file_name@));
    assert(names.no_duplicates()) by {
        assert forall|a: int, b: int| 0 <= a < names.len() && 0 <= b < names.len() && a != b
            implies names[a] != names[b] by {
            if a < b {
                assert(text_lt(groups[a].group_name@, groups[b].group_name@));
            } else {
                assert(text_lt(groups[b].group_name@, groups[a].group_name@));
            }
            lemma_text_lt_irreflexive(names[a]);
        }
    }
    assert(keys.no_duplicates()) by {
        assert forall|a: int, b: int| 0 <= a < keys.len() && 0 <= b < keys.len() && a != b
            implies keys[a] != keys[b] by {
            if keys[a] == keys[b] {
                lemma_key_injective(files[a].file_name@, files[b].file_name@);
                if a < b {
                    assert(files[a].file_name@ != files[b].file_name@);
                } else {
                    assert(files[b].file_name@ != files[a].file_name@);
                }
            }
        }
    }
    assert(names.to_set() =~= keys.to_set()) by {
        assert forall|t: Seq<char>| names.to_set().contains(t) implies keys.to_set().contains(t) by {
            let i = choose|i: int| 0 <= i < names.len() && names[i] == t;
            assert(group_of_files(groups[i], files));
            assert(strings_view(groups[i].paths@).len() == groups[i].paths@.len());
            lemma_paths_nonempty(files, t);
            let k = choose|k: int|
                0 <= k < files.len() && is_question_file(#[trigger] files[k].file_name@) && group_key(
                    files[k].file_name@,
                ) == t;
            assert(keys[k] == t);
        }
        assert forall|t: Seq<char>| keys.to_set().contains(t) implies names.to_set().contains(t) by {
            let k = choose|k: int| 0 <= k < keys.len() && keys[k] == t;
            assert(has_group(groups, group_key(files[k].file_name@)));
            let i = choose|i: int| 0 <= i < groups.len() && #[trigger] groups[i].group_name@ == t;
            assert(names[i] == t);
        }
    }
    names.unique_seq_to_set();
    keys.unique_seq_to_set();
}

} // verus!
