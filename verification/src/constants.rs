use vstd::prelude::*;

use crate::text::{
    lemma_split_append, lemma_split_without_separators, chars_ends_with, chars_eq, chars_starts_with, ends_with, lemma_split_nonempty, split,
    split_chars, starts_with, to_chars, trim, trim_chars,
};

verus! {

broadcast use vstd::string::group_string_axioms;

/// Number of semesters: five academic years of three seasons each.
pub const SEMESTER_COUNT: usize = 15;

/// The semester table: Chinese semester name, folder name, display title.
pub open spec fn semester_table() -> Seq<(Seq<char>, Seq<char>, Seq<char>)> {
    seq![
        ("第一学年秋季"@, "fresh-autumn"@, "大一·秋"@),
        ("第一学年春季"@, "fresh-spring"@, "大一·春"@),
        ("第一学年夏季"@, "fresh-summer"@, "大一·夏"@),
        ("第二学年秋季"@, "sophomore-autumn"@, "大二·秋"@),
        ("第二学年春季"@, "sophomore-spring"@, "大二·春"@),
        ("第二学年夏季"@, "sophomore-summer"@, "大二·夏"@),
        ("第三学年秋季"@, "junior-autumn"@, "大三·秋"@),
        ("第三学年春季"@, "junior-spring"@, "大三·春"@),
        ("第三学年夏季"@, "junior-summer"@, "大三·夏"@),
        ("第四学年秋季"@, "senior-autumn"@, "大四·秋"@),
        ("第四学年春季"@, "senior-spring"@, "大四·春"@),
        ("第四学年夏季"@, "senior-summer"@, "大四·夏"@),
        ("第五学年秋季"@, "fifth-autumn"@, "大五·秋"@),
        ("第五学年春季"@, "fifth-spring"@, "大五·春"@),
        ("第五学年夏季"@, "fifth-summer"@, "大五·夏"@),
    ]
}

/// Row `i` of the semester table.
pub fn semester_entry(i: usize) -> (r: (&'static str, &'static str, &'static str))
    requires
        i < SEMESTER_COUNT,
    ensures
        r.0@ == semester_table()[i as int].0,
        r.1@ == semester_table()[i as int].1,
        r.2@ == semester_table()[i as int].2,
{
    match i {
        0 => ("第一学年秋季", "fresh-autumn", "大一·秋"),
        1 => ("第一学年春季", "fresh-spring", "大一·春"),
        2 => ("第一学年夏季", "fresh-summer", "大一·夏"),
        3 => ("第二学年秋季", "sophomore-autumn", "大二·秋"),
        4 => ("第二学年春季", "sophomore-spring", "大二·春"),
        5 => ("第二学年夏季", "sophomore-summer", "大二·夏"),
        6 => ("第三学年秋季", "junior-autumn", "大三·秋"),
        7 => ("第三学年春季", "junior-spring", "大三·春"),
        8 => ("第三学年夏季", "junior-summer", "大三·夏"),
        9 => ("第四学年秋季", "senior-autumn", "大四·秋"),
        10 => ("第四学年春季", "senior-spring", "大四·春"),
        11 => ("第四学年夏季", "senior-summer", "大四·夏"),
        12 => ("第五学年秋季", "fifth-autumn", "大五·秋"),
        13 => ("第五学年春季", "fifth-spring", "大五·春"),
        _ => ("第五学年夏季", "fifth-summer", "大五·夏"),
    }
}

/// Index of the first row whose Chinese name is `key`, searching from row `from`.
pub open spec fn find_semester_by_name(key: Seq<char>, from: int) -> Option<int>
    decreases SEMESTER_COUNT - from,
{
    if from < 0 || from >= SEMESTER_COUNT {
        None
    } else if semester_table()[from].0 == key {
        Some(from)
    } else {
        find_semester_by_name(key, from + 1)
    }
}

/// Index of the first row whose folder is `folder`, searching from row `from`.
pub open spec fn find_semester_by_folder(folder: Seq<char>, from: int) -> Option<int>
    decreases SEMESTER_COUNT - from,
{
    if from < 0 || from >= SEMESTER_COUNT {
        None
    } else if semester_table()[from].1 == folder {
        Some(from)
    } else {
        find_semester_by_folder(folder, from + 1)
    }
}

pub proof fn lemma_find_by_name_found(key: Seq<char>, from: int)
    requires
        0 <= from,
    ensures
        find_semester_by_name(key, from) matches Some(i) ==> from <= i < SEMESTER_COUNT
            && semester_table()[i].0 == key,
        find_semester_by_name(key, from) is None ==> forall|i: int|
            from <= i < SEMESTER_COUNT ==> semester_table()[i].0 != key,
    decreases SEMESTER_COUNT - from,
{
    if from < SEMESTER_COUNT {
        lemma_find_by_name_found(key, from + 1);
    }
}

pub proof fn lemma_find_by_folder_found(folder: Seq<char>, from: int)
    requires
        0 <= from,
    ensures
        find_semester_by_folder(folder, from) matches Some(i) ==> from <= i < SEMESTER_COUNT
            && semester_table()[i].1 == folder,
        find_semester_by_folder(folder, from) is None ==> forall|i: int|
            from <= i < SEMESTER_COUNT ==> semester_table()[i].1 != folder,
    decreases SEMESTER_COUNT - from,
{
    if from < SEMESTER_COUNT {
        lemma_find_by_folder_found(folder, from + 1);
    }
}

/// Row index of the semester named `recommended`, or `None`.
pub fn find_semester_index(recommended: &Vec<char>) -> (r: Option<usize>)
    ensures
        r matches Some(i) ==> find_semester_by_name(recommended@, 0) == Some(i as int),
        r is None ==> find_semester_by_name(recommended@, 0) is None,
{
    let mut i: usize = 0;
    while i < SEMESTER_COUNT
        invariant
            i <= SEMESTER_COUNT,
            find_semester_by_name(recommended@, 0) == find_semester_by_name(recommended@, i as int),
        decreases SEMESTER_COUNT - i,
    {
        let entry = semester_entry(i);
        let key = to_chars(entry.0);
        if chars_eq(&key, recommended) {
            return Some(i);
        }
        i += 1;
    }
    None
}

/// Folder and display title of the semester with Chinese name `recommended`.
pub fn get_semester_folder(recommended: &str) -> (r: Option<(&'static str, &'static str)>)
    ensures
        match find_semester_by_name(recommended@, 0) {
            None => r is None,
            Some(i) => r matches Some((folder, title)) && folder@ == semester_table()[i].1
                && title@ == semester_table()[i].2,
        },
{
    let chars = to_chars(recommended);
    match find_semester_index(&chars) {
        Some(i) => {
            proof {
                lemma_find_by_name_found(recommended@, 0);
            }
            let entry = semester_entry(i);
            Some((entry.1, entry.2))
        },
        None => None,
    }
}

/// Display title of the semester stored under `folder`.
pub fn get_semester_title_by_folder(folder: &str) -> (r: Option<&'static str>)
    ensures
        match find_semester_by_folder(folder@, 0) {
            None => r is None,
            Some(i) => r matches Some(title) && title@ == semester_table()[i].2,
        },
{
    let chars = to_chars(folder);
    let mut i: usize = 0;
    while i < SEMESTER_COUNT
        invariant
            i <= SEMESTER_COUNT,
            chars@ == folder@,
            find_semester_by_folder(folder@, 0) == find_semester_by_folder(folder@, i as int),
        decreases SEMESTER_COUNT - i,
    {
        let entry = semester_entry(i);
        let f = to_chars(entry.1);
        if chars_eq(&f, &chars) {
            proof {
                lemma_find_by_folder_found(folder@, 0);
            }
            return Some(entry.2);
        }
        i += 1;
    }
    None
}

/// The characters that separate semesters in a multi-semester field.
pub open spec fn semester_separators() -> Seq<char> {
    seq![',', '，', '、']
}

/// Row indices of the semesters named by `tokens` (each trimmed), in order of
/// first mention, each once; unknown and empty names are skipped.
pub open spec fn semester_indices(tokens: Seq<Seq<char>>) -> Seq<int>
    decreases tokens.len(),
{
    if tokens.len() == 0 {
        Seq::empty()
    } else {
        let acc = semester_indices(tokens.drop_last());
        match find_semester_by_name(trim(tokens.last()), 0) {
            Some(i) => if acc.contains(i) {
                acc
            } else {
                acc.push(i)
            },
            None => acc,
        }
    }
}

/// The semesters that `parse_semester_folders` yields for the field `recommended`.
pub open spec fn parsed_semesters(recommended: Seq<char>) -> Seq<int> {
    semester_indices(split(recommended, semester_separators()))
}

/// Rows of the semesters named in `recommended`, split at `,`, `，` and `、`.
pub fn parse_semester_indices(recommended: &str) -> (r: Vec<usize>)
    ensures
        r@.map_values(|i: usize| i as int) == parsed_semesters(recommended@),
        forall|k: int| 0 <= k < r@.len() ==> (#[trigger] r@[k]) < SEMESTER_COUNT,
{
    let chars = to_chars(recommended);
    let seps = vec![',', '，', '、'];
    assert(seps@ == semester_separators());
    let tokens = split_chars(&chars, &seps);
    let ghost ts = tokens@.map_values(|p: Vec<char>| p@);
    let mut seen: Vec<usize> = Vec::new();
    for t in 0..tokens.len()
        invariant
            ts == tokens@.map_values(|p: Vec<char>| p@),
            ts == split(recommended@, semester_separators()),
            seen@.map_values(|i: usize| i as int) == semester_indices(ts.take(t as int)),
            forall|k: int| 0 <= k < seen@.len() ==> (#[trigger] seen@[k]) < SEMESTER_COUNT,
    {
        assert(ts.take(t + 1).drop_last() =~= ts.take(t as int));
        let semester = trim_chars(&tokens[t]);
        if semester.len() > 0 {
            if let Some(i) = find_semester_index(&semester) {
                proof {
                    lemma_find_by_name_found(semester@, 0);
                }
                if !contains_index(&seen, i) {
                    seen.push(i);
                    assert(seen@.map_values(|i: usize| i as int) =~= semester_indices(
                        ts.take(t as int),
                    ).push(i as int));
                } else {
                    proof {
                        let k = choose|k: int| 0 <= k < seen@.len() && seen@[k] == i;
                        assert(seen@.map_values(|i: usize| i as int)[k] == i as int);
                    }
                }
            }
        } else {
            proof {
                // no semester has an empty name
                lemma_find_by_name_found(semester@, 0);
                lemma_semester_names_nonempty();
            }
        }
    }
    assert(ts.take(tokens@.len() as int) =~= ts);
    seen
}

/// (folder, title) of each semester named in `recommended`, split at `,`, `，` and `、`.
pub fn parse_semester_folders(recommended: &str) -> (r: Vec<(&'static str, &'static str)>)
    ensures
        r@.len() == parsed_semesters(recommended@).len(),
        forall|k: int|
            0 <= k < r@.len() ==> {
                let i = #[trigger] parsed_semesters(recommended@)[k];
                &&& r@[k].0@ == semester_table()[i].1
                &&& r@[k].1@ == semester_table()[i].2
            },
{
    let indices = parse_semester_indices(recommended);
    let ghost parsed = parsed_semesters(recommended@);
    let mut folders: Vec<(&'static str, &'static str)> = Vec::new();
    for k in 0..indices.len()
        invariant
            indices@.map_values(|i: usize| i as int) == parsed,
            forall|m: int| 0 <= m < indices@.len() ==> (#[trigger] indices@[m]) < SEMESTER_COUNT,
            folders@.len() == k,
            forall|m: int|
                0 <= m < k ==> {
                    &&& (#[trigger] folders@[m]).0@ == semester_table()[parsed[m]].1
                    &&& folders@[m].1@ == semester_table()[parsed[m]].2
                },
    {
        let entry = semester_entry(indices[k]);
        assert(parsed[k as int] == indices@[k as int] as int);
        folders.push((entry.1, entry.2));
    }
    folders
}

/// The semesters that a field names are rows of the table, none twice.
pub proof fn lemma_semester_indices_valid(tokens: Seq<Seq<char>>)
    ensures
        forall|k: int|
            0 <= k < semester_indices(tokens).len() ==> 0 <= #[trigger] semester_indices(tokens)[k]
                < SEMESTER_COUNT,
        forall|k1: int, k2: int|
            0 <= k1 < semester_indices(tokens).len() && 0 <= k2 < semester_indices(tokens).len()
                && k1 != k2 ==> #[trigger] semester_indices(tokens)[k1]
                != #[trigger] semester_indices(tokens)[k2],
    decreases tokens.len(),
{
    if tokens.len() > 0 {
        lemma_semester_indices_valid(tokens.drop_last());
        lemma_find_by_name_found(trim(tokens.last()), 0);
        let acc = semester_indices(tokens.drop_last());
        let r = semester_indices(tokens);
        if let Some(i) = find_semester_by_name(trim(tokens.last()), 0) {
            if !acc.contains(i) {
                assert(r == acc.push(i));
                assert forall|k: int| 0 <= k < r.len() implies 0 <= #[trigger] r[k] < SEMESTER_COUNT by {
                    if k < acc.len() {
                        assert(r[k] == acc[k]);
                    }
                }
                assert forall|k1: int, k2: int|
                    0 <= k1 < r.len() && 0 <= k2 < r.len() && k1 != k2 implies #[trigger] r[k1]
                    != #[trigger] r[k2] by {
                    if k1 == acc.len() {
                        assert(r[k2] == acc[k2]);
                    } else if k2 == acc.len() {
                        assert(r[k1] == acc[k1]);
                    } else {
                        assert(r[k1] == acc[k1] && r[k2] == acc[k2]);
                    }
                }
            }
        }
    }
}

/// Whether `i` occurs in `v`.
pub fn contains_index(v: &Vec<usize>, i: usize) -> (r: bool)
    ensures
        r == v@.contains(i),
        r == v@.map_values(|x: usize| x as int).contains(i as int),
{
    for k in 0..v.len()
        invariant
            forall|m: int| 0 <= m < k ==> v@[m] != i,
    {
        if v[k] == i {
            proof {
                assert(v@.map_values(|x: usize| x as int)[k as int] == i as int);
            }
            return true;
        }
    }
    false
}

/// No semester has an empty Chinese name.
pub proof fn lemma_semester_names_nonempty()
    ensures
        forall|i: int| 0 <= i < SEMESTER_COUNT ==> #[trigger] semester_table()[i].0.len() > 0,
{
    reveal_strlit("第一学年秋季");
    reveal_strlit("第一学年春季");
    reveal_strlit("第一学年夏季");
    reveal_strlit("第二学年秋季");
    reveal_strlit("第二学年春季");
    reveal_strlit("第二学年夏季");
    reveal_strlit("第三学年秋季");
    reveal_strlit("第三学年春季");
    reveal_strlit("第三学年夏季");
    reveal_strlit("第四学年秋季");
    reveal_strlit("第四学年春季");
    reveal_strlit("第四学年夏季");
    reveal_strlit("第五学年秋季");
    reveal_strlit("第五学年春季");
    reveal_strlit("第五学年夏季");
}

/// The last `/`-separated piece of `path`: its file name.
pub open spec fn file_name_of(path: Seq<char>) -> Seq<char> {
    split(path, seq!['/']).last()
}

/// File names that never appear in a file tree.
pub open spec fn is_excluded_file_name(name: Seq<char>) -> bool {
    ||| name == ".gitkeep"@
    ||| name == "README.md"@
    ||| name == "LICENSE"@
    ||| name == "tag.txt"@
}

/// Whether a file tree shows the file at `path`: its name is not excluded, it
/// does not end in `.toml`, and it is not under `.github/`.
pub open spec fn file_is_included(path: Seq<char>) -> bool {
    &&& !is_excluded_file_name(file_name_of(path))
    &&& !ends_with(file_name_of(path), ".toml"@)
    &&& !starts_with(path, ".github/"@)
}

/// Whether the file tree includes the file at `path`.
pub fn should_include_file(path: &str) -> (r: bool)
    ensures
        r == file_is_included(path@),
{
    let chars = to_chars(path);
    let seps = vec!['/'];
    let parts = split_chars(&chars, &seps);
    proof {
        lemma_split_nonempty(path@, seq!['/']);
        assert(seps@ == seq!['/']);
    }
    let filename = &parts[parts.len() - 1];
    assert(filename@ == file_name_of(path@));
    let excluded = [".gitkeep", "README.md", "LICENSE", "tag.txt"];
    for k in 0..4
        invariant
            filename@ == file_name_of(path@),
            excluded@ == seq![".gitkeep", "README.md", "LICENSE", "tag.txt"],
            forall|m: int| 0 <= m < k ==> filename@ != (#[trigger] excluded@[m])@,
    {
        let pattern = to_chars(excluded[k]);
        if chars_eq(filename, &pattern) {
            return false;
        }
    }
    assert(!is_excluded_file_name(filename@)) by {
        assert(filename@ != excluded@[0]@);
        assert(filename@ != excluded@[1]@);
        assert(filename@ != excluded@[2]@);
        assert(filename@ != excluded@[3]@);
    }
    let ext = to_chars(".toml");
    if chars_ends_with(filename, &ext) {
        return false;
    }
    let prefix = to_chars(".github/");
    if chars_starts_with(&chars, &prefix) {
        return false;
    }
    true
}

/// Each row of the semester table is found by its own Chinese name and by its own
/// folder, so every semester of the table is recognized, and its folder leads back
/// to it.
pub proof fn law_semester_rows_round_trip()
    ensures
        forall|i: int|
            #![trigger semester_table()[i]]
            0 <= i < SEMESTER_COUNT ==> find_semester_by_name(semester_table()[i].0, 0) == Some(i),
        forall|i: int|
            #![trigger semester_table()[i]]
            0 <= i < SEMESTER_COUNT ==> find_semester_by_folder(semester_table()[i].1, 0) == Some(i),
{
    lemma_semester_table_distinct();
    assert forall|i: int|
        #![trigger semester_table()[i]]
        0 <= i < SEMESTER_COUNT implies find_semester_by_name(semester_table()[i].0, 0) == Some(i) by {
        lemma_find_by_name_found(semester_table()[i].0, 0);
        if let Some(j) = find_semester_by_name(semester_table()[i].0, 0) {
            assert(semester_table()[j].0 == semester_table()[i].0);
        }
    }
    assert forall|i: int|
        #![trigger semester_table()[i]]
        0 <= i < SEMESTER_COUNT implies find_semester_by_folder(semester_table()[i].1, 0) == Some(i) by {
        lemma_find_by_folder_found(semester_table()[i].1, 0);
        if let Some(j) = find_semester_by_folder(semester_table()[i].1, 0) {
            assert(semester_table()[j].1 == semester_table()[i].1);
        }
    }
}

/// Where a semester name is known, the folder that `get_semester_folder` gives for
/// it leads `get_semester_title_by_folder` back to the same row, and so to the
/// same title.
pub proof fn law_semester_folder_round_trip(recommended: Seq<char>)
    ensures
        find_semester_by_name(recommended, 0) matches Some(i) ==> find_semester_by_folder(
            semester_table()[i].1,
            0,
        ) == Some(i),
{
    lemma_find_by_name_found(recommended, 0);
    law_semester_rows_round_trip();
    if let Some(i) = find_semester_by_name(recommended, 0) {
        assert(find_semester_by_folder(semester_table()[i].1, 0) == Some(i));
    }
}

/// A field without separators names at most one semester: the one that
/// `get_semester_folder` finds for its trimmed text.
pub proof fn law_single_semester_field(recommended: Seq<char>)
    requires
        forall|k: int|
            0 <= k < recommended.len() ==> !semester_separators().contains(#[trigger] recommended[k]),
    ensures
        parsed_semesters(recommended) == match find_semester_by_name(trim(recommended), 0) {
            Some(i) => seq![i],
            None => Seq::<int>::empty(),
        },
{
    lemma_split_without_separators(recommended, semester_separators());
    let tokens = seq![recommended];
    assert(tokens.drop_last() =~= Seq::<Seq<char>>::empty());
    assert(tokens.last() == recommended);
    assert(semester_indices(tokens.drop_last()) =~= Seq::<int>::empty());
    if let Some(i) = find_semester_by_name(trim(recommended), 0) {
        assert(!Seq::<int>::empty().contains(i));
        assert(Seq::<int>::empty().push(i) =~= seq![i]);
    }
}

/// A file is shown exactly when its name (the part after the last `/`) is none of
/// `.gitkeep`, `README.md`, `LICENSE` and `tag.txt`, its name does not end in
/// `.toml`, and its path does not start with `.github/`; at the top level and in
/// any folder `dir`.
pub proof fn law_shown_files(dir: Seq<char>, name: Seq<char>)
    requires
        forall|k: int| 0 <= k < name.len() ==> #[trigger] name[k] != '/',
    ensures
        file_is_included(name) == (name != ".gitkeep"@ && name != "README.md"@ && name != "LICENSE"@
            && name != "tag.txt"@ && !ends_with(name, ".toml"@) && !starts_with(name, ".github/"@)),
        file_is_included(dir + seq!['/'] + name) == (name != ".gitkeep"@ && name != "README.md"@
            && name != "LICENSE"@ && name != "tag.txt"@ && !ends_with(name, ".toml"@) && !starts_with(
            dir + seq!['/'] + name,
            ".github/"@,
        )),
{
    assert forall|k: int| 0 <= k < name.len() implies !seq!['/'].contains(#[trigger] name[k]) by {
        if seq!['/'].contains(name[k]) {
            let j = choose|j: int| 0 <= j < 1 && seq!['/'][j] == name[k];
        }
    }
    lemma_split_without_separators(name, seq!['/']);
    assert(file_name_of(name) == name);
    let d = dir + seq!['/'];
    lemma_split_nonempty(dir, seq!['/']);
    assert(d.drop_last() =~= dir);
    assert(seq!['/'].contains(d.last())) by {
        assert(seq!['/'][0] == '/');
    }
    lemma_split_append(d, name, seq!['/']);
    assert(split(d, seq!['/']).last() =~= Seq::<char>::empty());
    assert(Seq::<char>::empty() + name =~= name);
    assert(file_name_of(dir + seq!['/'] + name) == name);
}

/// A field of two semester names separated by `,`, `，` or `、` gives the semester
/// of the first name and then that of the second (each trimmed), an unknown name
/// giving none and a repeated semester given once.
pub proof fn law_two_semester_field(a: Seq<char>, b: Seq<char>, sep: char)
    requires
        sep == ',' || sep == '，' || sep == '、',
        forall|k: int| 0 <= k < a.len() ==> #[trigger] a[k] != ',' && a[k] != '，' && a[k] != '、',
        forall|k: int| 0 <= k < b.len() ==> #[trigger] b[k] != ',' && b[k] != '，' && b[k] != '、',
    ensures
        parsed_semesters(a + seq![sep] + b) == match (
            find_semester_by_name(trim(a), 0),
            find_semester_by_name(trim(b), 0),
        ) {
            (Some(i), Some(j)) => if i == j {
                seq![i]
            } else {
                seq![i, j]
            },
            (Some(i), None) => seq![i],
            (None, Some(j)) => seq![j],
            (None, None) => Seq::<int>::empty(),
        },
{
    let seps = semester_separators();
    assert(seps.contains(sep)) by {
        if sep == ',' {
            assert(seps[0] == sep);
        } else if sep == '，' {
            assert(seps[1] == sep);
        } else {
            assert(seps[2] == sep);
        }
    }
    assert forall|k: int| 0 <= k < a.len() implies !seps.contains(#[trigger] a[k]) by {
        if seps.contains(a[k]) {
            let m = choose|m: int| 0 <= m < seps.len() && seps[m] == a[k];
        }
    }
    assert forall|k: int| 0 <= k < b.len() implies !seps.contains(#[trigger] b[k]) by {
        if seps.contains(b[k]) {
            let m = choose|m: int| 0 <= m < seps.len() && seps[m] == b[k];
        }
    }
    lemma_split_without_separators(a, seps);
    let a1 = a + seq![sep];
    assert(a1.drop_last() =~= a);
    assert(a1.last() == sep);
    assert(split(a1, seps) =~= seq![a, Seq::<char>::empty()]);
    lemma_split_append(a1, b, seps);
    assert(Seq::<char>::empty() + b =~= b);
    assert(split(a1 + b, seps) =~= seq![a, b]);
    let tokens = seq![a, b];
    assert(tokens.drop_last() =~= seq![a]);
    assert(seq![a].drop_last() =~= Seq::<Seq<char>>::empty());
    assert(semester_indices(Seq::<Seq<char>>::empty()) =~= Seq::<int>::empty());
    if let Some(i) = find_semester_by_name(trim(a), 0) {
        assert(!Seq::<int>::empty().contains(i));
        assert(semester_indices(seq![a]) =~= seq![i]);
        if let Some(j) = find_semester_by_name(trim(b), 0) {
            if i != j {
                assert(!seq![i].contains(j)) by {
                    if seq![i].contains(j) {
                        let k = choose|k: int| 0 <= k < 1 && seq![i][k] == j;
                    }
                }
                assert(seq![i].push(j) =~= seq![i, j]);
            } else {
                assert(seq![i][0] == j);
            }
        }
    } else {
        assert(semester_indices(seq![a]) =~= Seq::<int>::empty());
        if let Some(j) = find_semester_by_name(trim(b), 0) {
            assert(!Seq::<int>::empty().contains(j));
            assert(Seq::<int>::empty().push(j) =~= seq![j]);
        }
    }
}

/// The semester table maps names, folders and titles one to one: no two rows
/// share a Chinese name, a folder or a title.
pub proof fn lemma_semester_table_distinct()
    ensures
        semester_table().len() == SEMESTER_COUNT,
        forall|i: int, j: int|
            0 <= i < SEMESTER_COUNT && 0 <= j < SEMESTER_COUNT && i != j ==> {
                &&& (#[trigger] semester_table()[i]).0 != (#[trigger] semester_table()[j]).0
                &&& semester_table()[i].1 != semester_table()[j].1
                &&& semester_table()[i].2 != semester_table()[j].2
            },
{
    lemma_semester_names_distinct();
    lemma_semester_folders_distinct();
    lemma_semester_titles_distinct();
}

proof fn lemma_semester_names_distinct()
    ensures
        forall|i: int, j: int|
            0 <= i < SEMESTER_COUNT && 0 <= j < SEMESTER_COUNT && i != j ==> (#[trigger] semester_table()[i]).0
                != (#[trigger] semester_table()[j]).0,
{
    reveal_strlit("第一学年秋季");
    reveal_strlit("第一学年春季");
    reveal_strlit("第一学年夏季");
    reveal_strlit("第二学年秋季");
    reveal_strlit("第二学年春季");
    reveal_strlit("第二学年夏季");
    reveal_strlit("第三学年秋季");
    reveal_strlit("第三学年春季");
    reveal_strlit("第三学年夏季");
    reveal_strlit("第四学年秋季");
    reveal_strlit("第四学年春季");
    reveal_strlit("第四学年夏季");
    reveal_strlit("第五学年秋季");
    reveal_strlit("第五学年春季");
    reveal_strlit("第五学年夏季");
    assert forall|i: int, j: int|
        0 <= i < SEMESTER_COUNT && 0 <= j < SEMESTER_COUNT && i != j implies (#[trigger] semester_table()[i]).0
        != (#[trigger] semester_table()[j]).0 by {
        let a = semester_table()[i].0;
        let b = semester_table()[j].0;
        assert(a[1] != b[1] || a[4] != b[4]);
    }
}

proof fn lemma_semester_folders_distinct()
    ensures
        forall|i: int, j: int|
            0 <= i < SEMESTER_COUNT && 0 <= j < SEMESTER_COUNT && i != j ==> (#[trigger] semester_table()[i]).1
                != (#[trigger] semester_table()[j]).1,
{
    reveal_strlit("fresh-autumn");
    reveal_strlit("fresh-spring");
    reveal_strlit("fresh-summer");
    reveal_strlit("sophomore-autumn");
    reveal_strlit("sophomore-spring");
    reveal_strlit("sophomore-summer");
    reveal_strlit("junior-autumn");
    reveal_strlit("junior-spring");
    reveal_strlit("junior-summer");
    reveal_strlit("senior-autumn");
    reveal_strlit("senior-spring");
    reveal_strlit("senior-summer");
    reveal_strlit("fifth-autumn");
    reveal_strlit("fifth-spring");
    reveal_strlit("fifth-summer");
    assert forall|i: int, j: int|
        0 <= i < SEMESTER_COUNT && 0 <= j < SEMESTER_COUNT && i != j implies (#[trigger] semester_table()[i]).1
        != (#[trigger] semester_table()[j]).1 by {
        let a = semester_table()[i].1;
        let b = semester_table()[j].1;
        assert(a[1] != b[1] || a.last() != b.last());
    }
}

proof fn lemma_semester_titles_distinct()
    ensures
        forall|i: int, j: int|
            0 <= i < SEMESTER_COUNT && 0 <= j < SEMESTER_COUNT && i != j ==> (#[trigger] semester_table()[i]).2
                != (#[trigger] semester_table()[j]).2,
{
    reveal_strlit("大一·秋");
    reveal_strlit("大一·春");
    reveal_strlit("大一·夏");
    reveal_strlit("大二·秋");
    reveal_strlit("大二·春");
    reveal_strlit("大二·夏");
    reveal_strlit("大三·秋");
    reveal_strlit("大三·春");
    reveal_strlit("大三·夏");
    reveal_strlit("大四·秋");
    reveal_strlit("大四·春");
    reveal_strlit("大四·夏");
    reveal_strlit("大五·秋");
    reveal_strlit("大五·春");
    reveal_strlit("大五·夏");
    assert forall|i: int, j: int|
        0 <= i < SEMESTER_COUNT && 0 <= j < SEMESTER_COUNT && i != j implies (#[trigger] semester_table()[i]).2
        != (#[trigger] semester_table()[j]).2 by {
        let a = semester_table()[i].2;
        let b = semester_table()[j].2;
        assert(a[1] != b[1] || a[3] != b[3]);
    }
}

} // verus!
