//! Which bundles of rules are trusted, and which versions of packs and programs fit.

use vstd::prelude::*;

use crate::digest::sha256;
use crate::tagging::pack_bundle::{
    accounted_for, file_bytes, file_entries_of, file_entry_of, first_listed_problem, first_unlisted,
    listed_problem, manifest_of, manifest_problem, names_repeat, numbers_of, plain_version,
    satisfies, version_lt, BundleEntryView, FileEntryView, ManifestView, PackErrorView,
    PEACH_VERSION,
};
use crate::tagging::pack_diff::{name_count, version_in};
use crate::text::{dec, hex, split_on};
use crate::text_laws::{lemma_digits_of_number, lemma_parts_make_text, lemma_parts_of_text};
use crate::toml_doc::{entry, TomlView};

verus! {

/// The text of a version with three numbers.
pub open spec fn version_text(a: u32, b: u32, c: u32) -> Seq<char> {
    dec(a as nat) + seq!['.'] + (dec(b as nat) + seq!['.'] + dec(c as nat))
}

proof fn lemma_no_dot(n: nat)
    ensures
        !dec(n).contains('.'),
{
    lemma_digits_of_number(n);
}

proof fn lemma_version_numbers(a: u32, b: u32, c: u32)
    ensures
        plain_version(version_text(a, b, c)) == Some(seq![a, b, c]),
{
    let (x, y, z) = (dec(a as nat), dec(b as nat), dec(c as nat));
    lemma_no_dot(a as nat);
    lemma_no_dot(b as nat);
    lemma_no_dot(c as nat);
    lemma_digits_of_number(a as nat);
    lemma_digits_of_number(b as nat);
    lemma_digits_of_number(c as nat);
    lemma_parts_of_text(x, '.', y + seq!['.'] + z);
    lemma_parts_of_text(y, '.', z);
    lemma_parts_of_text(z, '.', Seq::empty());
    let parts = split_on(version_text(a, b, c), '.');
    assert(parts =~= seq![x, y, z]);
    let two = parts.drop_last();
    assert(two =~= seq![x, y]);
    let one = two.drop_last();
    assert(one =~= seq![x]);
    let none = one.drop_last();
    assert(none =~= Seq::<Seq<char>>::empty());
    assert(numbers_of(none) == Some(Seq::<u32>::empty()));
    assert(one.last() == x && two.last() == y && parts.last() == z);
    assert(numbers_of(one)->0 =~= seq![a]);
    assert(numbers_of(two)->0 =~= seq![a, b]);
    assert(numbers_of(parts)->0 =~= seq![a, b, c]);
}

/// A program meets the demand for a version if its own is the same or a later one: the first
/// numbers that differ decide.
pub proof fn lemma_demands_of_versions(a: u32, b: u32, c: u32, x: u32, y: u32, z: u32)
    ensures
        satisfies(version_text(a, b, c), version_text(x, y, z)) <==> a > x || (a == x && (b > y || (b
            == y && c >= z))),
{
    lemma_version_numbers(a, b, c);
    lemma_version_numbers(x, y, z);
    let (r, q) = (seq![a, b, c], seq![x, y, z]);
    let (r1, q1) = (r.drop_first(), q.drop_first());
    assert(r1 =~= seq![b, c] && q1 =~= seq![y, z]);
    let (r2, q2) = (r1.drop_first(), q1.drop_first());
    assert(r2 =~= seq![c] && q2 =~= seq![z]);
    let (r3, q3) = (r2.drop_first(), q2.drop_first());
    assert(r3.len() == 0 && q3.len() == 0);
    assert(!version_lt(r3, q3));
    assert(version_lt(r2, q2) == (c < z));
    assert(version_lt(r1, q1) == if b != y {
        b < y
    } else {
        c < z
    });
}

/// A text that is not three numbers with dots between them is no version.
pub proof fn lemma_three_numbers(v: Seq<char>)
    requires
        plain_version(v) is Some,
    ensures
        exists|a: Seq<char>, b: Seq<char>, c: Seq<char>|
            split_on(v, '.') == seq![a, b, c] && !a.contains('.') && !b.contains('.')
                && !c.contains('.') && crate::text::joined(#[trigger] seq![a, b, c], seq!['.']) == v,
{
    lemma_parts_make_text(v, '.');
    let parts = split_on(v, '.');
    let (a, b, c) = (parts[0], parts[1], parts[2]);
    assert(parts =~= seq![a, b, c]);
}

/// Whether bytes are those of a file of a bundle: of its first entry of that name that is a
/// file.
pub open spec fn is_file_of(entries: Seq<BundleEntryView>, name: Seq<char>, bytes: Seq<u8>) -> bool {
    exists|i: int|
        0 <= i < entries.len() && (#[trigger] entries[i]).name == name && entries[i].bytes == Some(
            bytes,
        ) && forall|j: int|
            0 <= j < i ==> (#[trigger] entries[j]).name != name || entries[j].bytes is None
}

/// Whether a bundle has no file of a name.
pub open spec fn has_no_file(entries: Seq<BundleEntryView>, name: Seq<char>) -> bool {
    forall|i: int|
        0 <= i < entries.len() ==> (#[trigger] entries[i]).name != name || entries[i].bytes is None
}

/// A file of a bundle is its first entry of that name.
pub proof fn lemma_file_of_bundle(entries: Seq<BundleEntryView>, name: Seq<char>)
    ensures
        match file_bytes(entries, name) {
            Some(b) => is_file_of(entries, name, b),
            None => has_no_file(entries, name),
        },
    decreases entries.len(),
{
    if entries.len() > 0 {
        if entries[0].name == name && entries[0].bytes is Some {
            assert(is_file_of(entries, name, entries[0].bytes->0));
        } else {
            let rest = entries.drop_first();
            lemma_file_of_bundle(rest, name);
            match file_bytes(rest, name) {
                Some(b) => {
                    let i = choose|i: int|
                        0 <= i < rest.len() && (#[trigger] rest[i]).name == name && rest[i].bytes
                            == Some(b) && forall|j: int|
                            0 <= j < i ==> (#[trigger] rest[j]).name != name
                                || rest[j].bytes is None;
                    assert(entries[i + 1] == rest[i]);
                    assert forall|j: int| 0 <= j < i + 1 implies (#[trigger] entries[j]).name
                        != name || entries[j].bytes is None by {
                        if j > 0 {
                            assert(rest[j - 1] == entries[j]);
                        }
                    }
                },
                None => {
                    assert forall|i: int| 0 <= i < entries.len() implies (
                    #[trigger] entries[i]).name != name || entries[i].bytes is None by {
                        if i > 0 {
                            assert(rest[i - 1] == entries[i]);
                        }
                    }
                },
            }
        }
    }
}

/// Whether a file that a manifest lists is in the bundle with the digest that is listed.
pub open spec fn is_as_listed(entries: Seq<BundleEntryView>, f: FileEntryView) -> bool {
    exists|b: Seq<u8>| #[trigger] is_file_of(entries, f.name, b) && hex(sha256(b)) == f.sha256
}

/// Whether an entry of a bundle is the manifest, or the only one of a name that is listed up
/// to its place.
pub open spec fn is_expected_entry(
    entries: Seq<BundleEntryView>,
    files: Seq<FileEntryView>,
    i: int,
) -> bool {
    ||| entries[i].name == "manifest.toml"@
    ||| (exists|k: int| 0 <= k < files.len() && (#[trigger] files[k]).name == entries[i].name) && (
    forall|j: int| 0 <= j < i ==> (#[trigger] entries[j]).name != entries[i].name)
}

proof fn lemma_one_file(entries: Seq<BundleEntryView>, name: Seq<char>, a: Seq<u8>, b: Seq<u8>)
    requires
        is_file_of(entries, name, a),
        is_file_of(entries, name, b),
    ensures
        a == b,
{
    let i = choose|i: int|
        0 <= i < entries.len() && (#[trigger] entries[i]).name == name && entries[i].bytes == Some(
            a,
        ) && forall|j: int|
            0 <= j < i ==> (#[trigger] entries[j]).name != name || entries[j].bytes is None;
    let k = choose|k: int|
        0 <= k < entries.len() && (#[trigger] entries[k]).name == name && entries[k].bytes == Some(
            b,
        ) && forall|j: int|
            0 <= j < k ==> (#[trigger] entries[j]).name != name || entries[j].bytes is None;
    if i < k {
        assert(entries[i].name != name || entries[i].bytes is None);
    } else if k < i {
        assert(entries[k].name != name || entries[k].bytes is None);
    }
}

proof fn lemma_listed(entries: Seq<BundleEntryView>, f: FileEntryView)
    ensures
        match listed_problem(entries, f) {
            None => is_as_listed(entries, f),
            Some(PackErrorView::MissingFile(name)) => name == f.name && has_no_file(entries, name),
            Some(PackErrorView::TamperedFile(name)) => name == f.name && !is_as_listed(entries, f)
                && !has_no_file(entries, name),
            _ => false,
        },
{
    lemma_file_of_bundle(entries, f.name);
    if let Some(b) = file_bytes(entries, f.name) {
        if is_as_listed(entries, f) {
            let c = choose|c: Seq<u8>| #[trigger]
                is_file_of(entries, f.name, c) && hex(sha256(c)) == f.sha256;
            lemma_one_file(entries, f.name, b, c);
        }
    }
}

proof fn lemma_first_listed(entries: Seq<BundleEntryView>, files: Seq<FileEntryView>) -> (at: int)
    ensures
        match first_listed_problem(entries, files) {
            None => forall|i: int|
                0 <= i < files.len() ==> is_as_listed(entries, #[trigger] files[i]),
            Some(e) => {
                &&& 0 <= at < files.len()
                &&& listed_problem(entries, files[at]) == Some(e)
                &&& forall|i: int| 0 <= i < at ==> is_as_listed(entries, #[trigger] files[i])
            },
        },
    decreases files.len(),
{
    if files.len() == 0 {
        0
    } else {
        lemma_listed(entries, files[0]);
        if listed_problem(entries, files[0]) is Some {
            0
        } else {
            let rest = files.drop_first();
            let at = lemma_first_listed(entries, rest);
            assert forall|i: int|
                0 <= i < files.len() && (first_listed_problem(entries, files) is Some ==> i < at
                    + 1) implies is_as_listed(entries, #[trigger] files[i]) by {
                if i > 0 {
                    assert(rest[i - 1] == files[i]);
                }
            }
            at + 1
        }
    }
}

proof fn lemma_first_unlisted(
    entries: Seq<BundleEntryView>,
    files: Seq<FileEntryView>,
    from: int,
) -> (at: int)
    requires
        0 <= from <= entries.len(),
    ensures
        match first_unlisted(entries, files, from) {
            None => forall|i: int|
                #![trigger entries[i]]
                from <= i < entries.len() ==> is_expected_entry(entries, files, i),
            Some(e) => {
                &&& from <= at < entries.len()
                &&& e == PackErrorView::UnlistedFile(entries[at].name)
                &&& !is_expected_entry(entries, files, at)
                &&& forall|i: int|
                    #![trigger entries[i]]
                    from <= i < at ==> is_expected_entry(entries, files, i)
            },
        },
    decreases entries.len() - from,
{
    if from >= entries.len() {
        from
    } else {
        assert(accounted_for(entries, files, from) == is_expected_entry(entries, files, from));
        if accounted_for(entries, files, from) {
            lemma_first_unlisted(entries, files, from + 1)
        } else {
            from
        }
    }
}

/// Whether a bundle is refused for a reason: the program is too old for it, a name is listed
/// twice, the first listed file that is not as listed is missing or has another digest, or
/// else the first entry that nothing accounts for is there.
pub open spec fn is_refused_for(
    entries: Seq<BundleEntryView>,
    m: ManifestView,
    e: PackErrorView,
) -> bool {
    let files = m.files;
    let too_old = !satisfies(PEACH_VERSION@, m.min_peach_version);
    let repeats = exists|i: int, j: int|
        0 <= i < j < files.len() && (#[trigger] files[i]).name == (#[trigger] files[j]).name;
    match e {
        PackErrorView::NeedsNewerPeach { required } => too_old && required == m.min_peach_version,
        PackErrorView::DuplicateName => !too_old && repeats,
        PackErrorView::MissingFile(name) => !too_old && !repeats && exists|at: int|
            0 <= at < files.len() && (#[trigger] files[at]).name == name && has_no_file(
                entries,
                name,
            ) && forall|i: int| 0 <= i < at ==> is_as_listed(entries, #[trigger] files[i]),
        PackErrorView::TamperedFile(name) => !too_old && !repeats && exists|at: int|
            0 <= at < files.len() && (#[trigger] files[at]).name == name && !has_no_file(
                entries,
                name,
            ) && !is_as_listed(entries, files[at]) && forall|i: int|
                0 <= i < at ==> is_as_listed(entries, #[trigger] files[i]),
        PackErrorView::UnlistedFile(name) => !too_old && !repeats && (forall|i: int|
            0 <= i < files.len() ==> is_as_listed(entries, #[trigger] files[i])) && exists|at: int|
            0 <= at < entries.len() && (#[trigger] entries[at]).name == name
                && !is_expected_entry(entries, files, at),
        _ => false,
    }
}

/// Whether a bundle can be trusted: the program is new enough for it, each listed file is
/// there with its digest, no name is listed twice, and nothing else is there.
pub open spec fn is_trusted(entries: Seq<BundleEntryView>, m: ManifestView) -> bool {
    &&& satisfies(PEACH_VERSION@, m.min_peach_version)
    &&& forall|i: int, j: int|
        0 <= i < j < m.files.len() ==> (#[trigger] m.files[i]).name != (#[trigger] m.files[j]).name
    &&& forall|i: int| 0 <= i < m.files.len() ==> is_as_listed(entries, #[trigger] m.files[i])
    &&& forall|i: int|
        #![trigger entries[i]]
        0 <= i < entries.len() ==> is_expected_entry(entries, m.files, i)
}

/// A bundle is taken if and only if it can be trusted, and else refused for the first reason.
pub proof fn lemma_bundles_are_trusted_or_refused(entries: Seq<BundleEntryView>, m: ManifestView)
    ensures
        manifest_problem(entries, m) is None <==> is_trusted(entries, m),
        manifest_problem(entries, m) matches Some(e) ==> is_refused_for(entries, m, e),
{
    let at = lemma_first_listed(entries, m.files);
    let un = lemma_first_unlisted(entries, m.files, 0);
    if let Some(e) = first_listed_problem(entries, m.files) {
        lemma_listed(entries, m.files[at]);
        assert(!is_as_listed(entries, m.files[at])) by {
            if has_no_file(entries, m.files[at].name) && is_as_listed(entries, m.files[at]) {
                let b = choose|b: Seq<u8>| #[trigger]
                    is_file_of(entries, m.files[at].name, b) && hex(sha256(b))
                        == m.files[at].sha256;
                let i = choose|i: int|
                    0 <= i < entries.len() && (#[trigger] entries[i]).name == m.files[at].name
                        && entries[i].bytes == Some(b);
                assert(entries[i].name != m.files[at].name || entries[i].bytes is None);
            }
        }
    }
    if names_repeat(m.files) {
        let (i, j) = choose|i: int, j: int|
            0 <= i < j < m.files.len() && (#[trigger] m.files[i]).name == (
            #[trigger] m.files[j]).name;
        assert(m.files[i].name == m.files[j].name);
    }
    if let Some(e) = first_unlisted(entries, m.files, 0) {
        assert(entries[un].name == e->UnlistedFile_0);
    }
}

/// Whether what a manifest says of a file is what its table does.
pub open spec fn is_file_entry_of(f: FileEntryView, body: Seq<(Seq<char>, TomlView)>) -> bool {
    &&& entry(body, "name"@) == Some(TomlView::Text(f.name))
    &&& entry(body, "sha256"@) == Some(TomlView::Text(f.sha256))
    &&& entry(body, "rule_name"@) == Some(TomlView::Text(f.rule_name))
    &&& entry(body, "rule_version"@) == Some(TomlView::Text(f.rule_version))
}

proof fn lemma_file_entries(items: Seq<TomlView>)
    ensures
        file_entries_of(items) matches Ok(files) ==> files.len() == items.len() && forall|i: int|
            0 <= i < items.len() && (#[trigger] items[i]) is Table ==> is_file_entry_of(
                files[i],
                items[i]->Table_0,
            ),
    decreases items.len(),
{
    if items.len() > 0 {
        let front = items.drop_last();
        lemma_file_entries(front);
        if let Ok(files) = file_entries_of(items) {
            assert forall|i: int|
                0 <= i < items.len() && (#[trigger] items[i]) is Table implies is_file_entry_of(
                files[i],
                items[i]->Table_0,
            ) by {
                if i < items.len() - 1 {
                    assert(front[i] == items[i]);
                    assert(files[i] == file_entries_of(front)->Ok_0[i]);
                } else {
                    assert(items[i] == items.last());
                    assert(file_entry_of(items.last()) == Ok::<_, Seq<char>>(files[i]));
                }
            }
        }
    }
}

/// A manifest says what its document does: of the pack, and of each file in the order of the
/// document.
pub proof fn lemma_manifest_is_its_document(doc: TomlView, pack: Seq<(Seq<char>, TomlView)>)
    requires
        doc.get("pack"@) == Some(TomlView::Table(pack)),
        manifest_of(doc) is Ok,
    ensures
        ({
            let m = manifest_of(doc)->Ok_0;
            &&& entry(pack, "pack_version"@) matches Some(TomlView::Integer(n)) && n
                == m.pack_version
            &&& entry(pack, "released_at"@) == Some(TomlView::Text(m.released_at))
            &&& entry(pack, "min_peach_version"@) == Some(TomlView::Text(m.min_peach_version))
            &&& match doc.get("files"@) {
                Some(TomlView::Array(items)) => items.len() == m.files.len() && forall|i: int|
                    0 <= i < items.len() && (#[trigger] items[i]) is Table ==> is_file_entry_of(
                        m.files[i],
                        items[i]->Table_0,
                    ),
                None => m.files.len() == 0,
                _ => false,
            }
        }),
{
    if let Some(TomlView::Array(items)) = doc.get("files"@) {
        lemma_file_entries(items);
    }
}

/// The version of a rule is that of the last entry with its name.
pub proof fn lemma_last_version_counts(entries: Seq<(Seq<char>, Seq<char>)>, name: Seq<char>)
    ensures
        match version_in(entries, name) {
            Some(v) => exists|i: int|
                0 <= i < entries.len() && #[trigger] entries[i] == (name, v) && forall|j: int|
                    i < j < entries.len() ==> (#[trigger] entries[j]).0 != name,
            None => forall|i: int| 0 <= i < entries.len() ==> (#[trigger] entries[i]).0 != name,
        },
    decreases entries.len(),
{
    if entries.len() > 0 {
        let n = entries.len() - 1;
        assert(entries[n] == entries.last());
        if entries.last().0 == name {
            assert(entries[n] == (name, entries[n].1));
        } else {
            let front = entries.drop_last();
            lemma_last_version_counts(front, name);
            match version_in(front, name) {
                Some(v) => {
                    let i = choose|i: int|
                        0 <= i < front.len() && #[trigger] front[i] == (name, v) && forall|j: int|
                            i < j < front.len() ==> (#[trigger] front[j]).0 != name;
                    assert(entries[i] == (name, v));
                    assert forall|j: int| i < j < entries.len() implies (
                    #[trigger] entries[j]).0 != name by {
                        if j < n {
                            assert(front[j] == entries[j]);
                        }
                    }
                },
                None => {
                    assert forall|i: int| 0 <= i < entries.len() implies (
                    #[trigger] entries[i]).0 != name by {
                        if i < n {
                            assert(front[i] == entries[i]);
                        }
                    }
                },
            }
        }
    }
}

/// The number of rules is that of the different names.
pub proof fn lemma_names_are_counted_once(entries: Seq<(Seq<char>, Seq<char>)>)
    ensures
        entries.map_values(|e: (Seq<char>, Seq<char>)| e.0).to_set().finite(),
        name_count(entries) == entries.map_values(|e: (Seq<char>, Seq<char>)| e.0).to_set().len(),
    decreases entries.len(),
{
    let names = entries.map_values(|e: (Seq<char>, Seq<char>)| e.0);
    if entries.len() == 0 {
        assert(names.to_set() =~= Set::empty());
    } else {
        let front = entries.drop_last();
        let before = front.map_values(|e: (Seq<char>, Seq<char>)| e.0);
        let last = entries.last().0;
        lemma_names_are_counted_once(front);
        lemma_last_version_counts(front, last);
        assert(names =~= before.push(last));
        assert(names.to_set() =~= before.to_set().insert(last)) by {
            assert forall|n: Seq<char>| names.to_set().contains(n) implies before.to_set().insert(
                last,
            ).contains(n) by {
                let i = choose|i: int| 0 <= i < names.len() && names[i] == n;
                if i < before.len() {
                    assert(before[i] == n);
                }
            }
            assert forall|n: Seq<char>| before.to_set().insert(last).contains(n) implies
                names.to_set().contains(n) by {
                if n == last {
                    assert(names[names.len() - 1] == n);
                } else {
                    let i = choose|i: int| 0 <= i < before.len() && before[i] == n;
                    assert(names[i] == n);
                }
            }
        }
        if version_in(front, last) is Some {
            let v = version_in(front, last)->0;
            let i = choose|i: int| 0 <= i < front.len() && #[trigger] front[i] == (last, v);
            assert(before[i] == last);
            assert(before.to_set().contains(last));
        } else {
            assert(!before.to_set().contains(last)) by {
                if before.to_set().contains(last) {
                    let i = choose|i: int| 0 <= i < before.len() && before[i] == last;
                    assert(front[i].0 == last);
                }
            }
        }
    }
}

} // verus!
