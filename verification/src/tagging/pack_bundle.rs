//! Rule pack bundles: whether what was unpacked from a download can be trusted.
//!
//! A bundle holds a manifest and rule files. It is trusted only where the
//! manifest can be read, asks for no newer program, lists no file twice, and
//! lists exactly the files that are there, each with its SHA-256.

use vstd::prelude::*;

use crate::digest::{sha256, sha256_hex, HASH_LIMIT};
use crate::tagging::pack_diff::{name_count, pairs_view, version_in, RuleVersions};
use crate::text::{
    chars_of, digits_u32, hex, parse_digits_u32, same, split, split_on, str_views, texts, utf8_string, utf8_view,
};
use crate::toml_doc::{
    as_table, list_as_table, missing_field, need_record, need_text, parse_toml, parsed_toml,
    required_record, required_text, say_missing, say_wrong_type, toml_items, wrong_type, Toml,
    TomlView,
};

verus! {

/// The version of the program, which a bundle may ask for.
pub const PEACH_VERSION: &'static str = "0.3.0";

/// What a manifest says of the pack as a whole.
#[derive(Debug, PartialEq)]
pub struct PackInfo {
    pub pack_version: u32,
    pub released_at: String,
    pub min_peach_version: String,
}

/// What a manifest says of one file.
#[derive(Debug, PartialEq)]
pub struct PackFileEntry {
    pub name: String,
    pub sha256: String,
    pub rule_name: String,
    pub rule_version: String,
}

/// The manifest of a bundle.
#[derive(Debug, PartialEq)]
pub struct PackManifest {
    pub pack: PackInfo,
    pub files: Vec<PackFileEntry>,
}

/// The view of a [`PackFileEntry`].
#[verifier::ext_equal]
pub struct FileEntryView {
    pub name: Seq<char>,
    pub sha256: Seq<char>,
    pub rule_name: Seq<char>,
    pub rule_version: Seq<char>,
}

/// The view of a [`PackManifest`].
#[verifier::ext_equal]
pub struct ManifestView {
    pub pack_version: u32,
    pub released_at: Seq<char>,
    pub min_peach_version: Seq<char>,
    pub files: Seq<FileEntryView>,
}

impl View for PackFileEntry {
    type V = FileEntryView;

    open spec fn view(&self) -> FileEntryView {
        FileEntryView {
            name: self.name@,
            sha256: self.sha256@,
            rule_name: self.rule_name@,
            rule_version: self.rule_version@,
        }
    }
}

/// The views of a list of file entries.
pub open spec fn files_view(files: Seq<PackFileEntry>) -> Seq<FileEntryView> {
    files.map_values(|f: PackFileEntry| f@)
}

impl View for PackManifest {
    type V = ManifestView;

    open spec fn view(&self) -> ManifestView {
        ManifestView {
            pack_version: self.pack.pack_version,
            released_at: self.pack.released_at@,
            min_peach_version: self.pack.min_peach_version@,
            files: files_view(self.files@),
        }
    }
}

/// The names and versions of the rules that files hold.
pub open spec fn rule_pairs(files: Seq<FileEntryView>) -> Seq<(Seq<char>, Seq<char>)> {
    files.map_values(|f: FileEntryView| (f.rule_name, f.rule_version))
}

impl PackManifest {
    /// The versions of the rules of the pack.
    pub fn rule_versions(&self) -> (r: RuleVersions)
        ensures
            forall|n: Seq<char>| #[trigger]
                r.version(n) == version_in(rule_pairs(self@.files), n),
            r@.len() == name_count(rule_pairs(self@.files)),
    {
        let mut pairs: Vec<(String, String)> = Vec::new();
        let mut i: usize = 0;
        while i < self.files.len()
            invariant
                i <= self.files.len(),
                pairs.len() == i,
                forall|j: int|
                    0 <= j < i ==> ((#[trigger] pairs@[j]).0@, pairs@[j].1@) == rule_pairs(
                        self@.files,
                    )[j],
            decreases self.files.len() - i,
        {
            assert(self@.files[i as int] == self.files@[i as int]@);
            pairs.push((self.files[i].rule_name.clone(), self.files[i].rule_version.clone()));
            i += 1;
        }
        assert(pairs_view(pairs@) =~= rule_pairs(self@.files));
        RuleVersions::from_pairs(&pairs)
    }
}

/// The number of a field that must be a 32-bit unsigned integer.
pub open spec fn required_u32(v: TomlView, key: Seq<char>) -> Result<u32, Seq<char>> {
    match v.get(key) {
        Some(TomlView::Integer(n)) => if 0 <= n <= u32::MAX {
            Ok(n as u32)
        } else {
            Err(wrong_type(key, "a 32-bit unsigned integer"@))
        },
        Some(_) => Err(wrong_type(key, "a 32-bit unsigned integer"@)),
        None => Err(missing_field(key)),
    }
}

/// The fields of what a manifest says of one file, in their order.
pub open spec fn file_fields() -> Seq<Seq<char>> {
    seq!["name"@, "sha256"@, "rule_name"@, "rule_version"@]
}

/// The fields of what a manifest says of its pack, in their order.
pub open spec fn pack_fields() -> Seq<Seq<char>> {
    seq!["pack_version"@, "released_at"@, "min_peach_version"@]
}

/// What a record says of one file.
pub open spec fn file_entry_of(item: TomlView) -> Result<FileEntryView, Seq<char>> {
    let v = as_table(item, file_fields(), 4, true);
    if !(v is Table) {
        Err(wrong_type("files"@, "an array of tables"@))
    } else {
        match (
            required_text(v, "name"@),
            required_text(v, "sha256"@),
            required_text(v, "rule_name"@),
            required_text(v, "rule_version"@),
        ) {
            (Ok(name), Ok(sha256), Ok(rule_name), Ok(rule_version)) => Ok(
                FileEntryView { name, sha256, rule_name, rule_version },
            ),
            (Err(e), _, _, _) => Err(e),
            (_, Err(e), _, _) => Err(e),
            (_, _, Err(e), _) => Err(e),
            (_, _, _, Err(e)) => Err(e),
        }
    }
}

/// What tables say of files.
pub open spec fn file_entries_of(items: Seq<TomlView>) -> Result<Seq<FileEntryView>, Seq<char>>
    decreases items.len(),
{
    if items.len() == 0 {
        Ok(seq![])
    } else {
        match file_entries_of(items.drop_last()) {
            Err(e) => Err(e),
            Ok(before) => match file_entry_of(items.last()) {
                Err(e) => Err(e),
                Ok(f) => Ok(before.push(f)),
            },
        }
    }
}

/// The files that a manifest lists; none where it has no such list.
pub open spec fn listed_files(doc: TomlView) -> Result<Seq<FileEntryView>, Seq<char>> {
    match doc.get("files"@) {
        Some(TomlView::Array(items)) => file_entries_of(items),
        Some(_) => Err(wrong_type("files"@, "an array of tables"@)),
        None => Ok(seq![]),
    }
}

/// The manifest that a document holds, or why it holds none.
pub open spec fn manifest_of(doc: TomlView) -> Result<ManifestView, Seq<char>> {
    match required_record(doc, "pack"@, pack_fields(), 3, true) {
        Err(e) => Err(e),
        Ok(entries) => {
            let pack = TomlView::Table(entries);
            match (
                required_u32(pack, "pack_version"@),
                required_text(pack, "released_at"@),
                required_text(pack, "min_peach_version"@),
                listed_files(doc),
            ) {
                (Ok(pack_version), Ok(released_at), Ok(min_peach_version), Ok(files)) => Ok(
                    ManifestView { pack_version, released_at, min_peach_version, files },
                ),
                (Err(e), _, _, _) => Err(e),
                (_, Err(e), _, _) => Err(e),
                (_, _, Err(e), _) => Err(e),
                (_, _, _, Err(e)) => Err(e),
            }
        },
    }
}

/// The manifest that a text holds, or why it holds none.
pub open spec fn manifest_of_text(text: Seq<char>) -> Result<ManifestView, Seq<char>> {
    match parsed_toml(text) {
        Ok(doc) => manifest_of(doc),
        Err(e) => Err(e),
    }
}

fn need_u32(v: &Toml, key: &str) -> (r: Result<u32, String>)
    ensures
        match r {
            Ok(n) => required_u32(v@, key@) == Ok::<u32, Seq<char>>(n),
            Err(e) => required_u32(v@, key@) == Err::<u32, Seq<char>>(e@),
        },
{
    match v.get(key) {
        Some(Toml::Integer(n)) => if 0 <= *n && *n <= u32::MAX as i64 {
            Ok(*n as u32)
        } else {
            Err(say_wrong_type(key, "a 32-bit unsigned integer"))
        },
        Some(_) => Err(say_wrong_type(key, "a 32-bit unsigned integer")),
        None => Err(say_missing(key)),
    }
}

fn read_file_entry(v: &Toml) -> (r: Result<PackFileEntry, String>)
    ensures
        match r {
            Ok(f) => file_entry_of(v@) == Ok::<FileEntryView, Seq<char>>(f@),
            Err(e) => file_entry_of(v@) == Err::<FileEntryView, Seq<char>>(e@),
        },
{
    let fields: [&'static str; 4] = ["name", "sha256", "rule_name", "rule_version"];
    assert(str_views(fields@) =~= file_fields());
    let listed = list_as_table(v, &fields, 4, true);
    let v = match &listed {
        Some(table) => table,
        None => v,
    };
    match v {
        Toml::Table(_) => {},
        _ => {
            return Err(say_wrong_type("files", "an array of tables"));
        },
    }
    let name = match need_text(v, "name") {
        Ok(s) => s,
        Err(e) => {
            return Err(e);
        },
    };
    let sha256 = match need_text(v, "sha256") {
        Ok(s) => s,
        Err(e) => {
            return Err(e);
        },
    };
    let rule_name = match need_text(v, "rule_name") {
        Ok(s) => s,
        Err(e) => {
            return Err(e);
        },
    };
    let rule_version = match need_text(v, "rule_version") {
        Ok(s) => s,
        Err(e) => {
            return Err(e);
        },
    };
    Ok(PackFileEntry { name, sha256, rule_name, rule_version })
}

fn read_file_entries(items: &Vec<Toml>) -> (r: Result<Vec<PackFileEntry>, String>)
    ensures
        match r {
            Ok(files) => file_entries_of(toml_items(items@)) == Ok::<Seq<FileEntryView>, Seq<char>>(
                files_view(files@),
            ),
            Err(e) => file_entries_of(toml_items(items@)) == Err::<Seq<FileEntryView>, Seq<char>>(
                e@,
            ),
        },
{
    let ghost all = toml_items(items@);
    let mut files: Vec<PackFileEntry> = Vec::new();
    assert(files_view(files@) =~= seq![]);
    let mut i: usize = 0;
    while i < items.len()
        invariant
            i <= items.len(),
            all == toml_items(items@),
            file_entries_of(all.take(i as int)) == Ok::<Seq<FileEntryView>, Seq<char>>(
                files_view(files@),
            ),
        decreases items.len() - i,
    {
        let ghost before = files@;
        proof {
            let next = all.take(i + 1);
            assert(next.drop_last() == all.take(i as int));
            assert(next.last() == items@[i as int]@);
        }
        match read_file_entry(&items[i]) {
            Ok(f) => {
                files.push(f);
                assert(files_view(files@) =~= files_view(before).push(f@));
            },
            Err(e) => {
                proof {
                    lemma_entries_fail(all, i + 1);
                }
                return Err(e);
            },
        }
        i += 1;
    }
    assert(all.take(i as int) == all);
    Ok(files)
}

/// Where the first tables cannot be read, the list cannot.
proof fn lemma_entries_fail(items: Seq<TomlView>, n: int)
    requires
        0 <= n <= items.len(),
        file_entries_of(items.take(n)) is Err,
    ensures
        file_entries_of(items) == file_entries_of(items.take(n)),
    decreases items.len(),
{
    if n < items.len() {
        assert(items.drop_last().take(n) == items.take(n));
        lemma_entries_fail(items.drop_last(), n);
    } else {
        assert(items.take(n) == items);
    }
}

/// The manifest that a document holds, or why it holds none.
pub fn manifest_from_document(doc: &Toml) -> (r: Result<PackManifest, String>)
    ensures
        match r {
            Ok(m) => manifest_of(doc@) == Ok::<ManifestView, Seq<char>>(m@),
            Err(e) => manifest_of(doc@) == Err::<ManifestView, Seq<char>>(e@),
        },
{
    let fields: [&'static str; 3] = ["pack_version", "released_at", "min_peach_version"];
    assert(str_views(fields@) =~= pack_fields());
    let pack = match need_record(doc, "pack", &fields, 3, true) {
        Ok(pack) => pack,
        Err(e) => {
            return Err(e);
        },
    };
    let pack = &pack;
    let pack_version: u32 = match need_u32(pack, "pack_version") {
        Ok(n) => n,
        Err(e) => {
            return Err(e);
        },
    };
    let released_at = match need_text(pack, "released_at") {
        Ok(s) => s,
        Err(e) => {
            return Err(e);
        },
    };
    let min_peach_version = match need_text(pack, "min_peach_version") {
        Ok(s) => s,
        Err(e) => {
            return Err(e);
        },
    };
    let files = match doc.get("files") {
        Some(Toml::Array(items)) => match read_file_entries(items) {
            Ok(files) => files,
            Err(e) => {
                return Err(e);
            },
        },
        Some(_) => {
            return Err(say_wrong_type("files", "an array of tables"));
        },
        None => {
            let none: Vec<PackFileEntry> = Vec::new();
            assert(files_view(none@) =~= seq![]);
            none
        },
    };
    Ok(PackManifest { pack: PackInfo { pack_version, released_at, min_peach_version }, files })
}

/// The manifest that a text holds, or why it holds none.
pub fn parse_manifest(text: &str) -> (r: Result<PackManifest, String>)
    ensures
        match r {
            Ok(m) => manifest_of_text(text@) == Ok::<ManifestView, Seq<char>>(m@),
            Err(e) => manifest_of_text(text@) == Err::<ManifestView, Seq<char>>(e@),
        },
{
    match parse_toml(text) {
        Ok(doc) => manifest_from_document(&doc),
        Err(e) => Err(e),
    }
}

/// The numbers that texts of decimal digits are.
pub open spec fn numbers_of(parts: Seq<Seq<char>>) -> Option<Seq<u32>>
    decreases parts.len(),
{
    if parts.len() == 0 {
        Some(seq![])
    } else {
        match (numbers_of(parts.drop_last()), digits_u32(parts.last())) {
            (Some(before), Some(n)) => Some(before.push(n)),
            _ => None,
        }
    }
}

/// The three numbers of a version such as `1.20.3`; nothing else is a version.
pub open spec fn plain_version(v: Seq<char>) -> Option<Seq<u32>> {
    if split_on(v, '.').len() == 3 {
        numbers_of(split_on(v, '.'))
    } else {
        None
    }
}

/// Whether `a` comes before `b`: by the first number in which they differ, else
/// the shorter before the longer.
pub open spec fn version_lt(a: Seq<u32>, b: Seq<u32>) -> bool
    decreases a.len(),
{
    if b.len() == 0 {
        false
    } else if a.len() == 0 {
        true
    } else if a[0] != b[0] {
        a[0] < b[0]
    } else {
        version_lt(a.drop_first(), b.drop_first())
    }
}

/// Whether a program of version `running` meets a demand; it does not where
/// either version cannot be read.
pub open spec fn satisfies(running: Seq<char>, required: Seq<char>) -> bool {
    match (plain_version(running), plain_version(required)) {
        (Some(running), Some(required)) => !version_lt(running, required),
        _ => false,
    }
}

/// The three numbers of a version such as `1.20.3`.
pub fn parse_plain_version(v: &str) -> (r: Option<Vec<u32>>)
    ensures
        match r {
            Some(n) => plain_version(v@) == Some(n@),
            None => plain_version(v@) is None,
        },
{
    let parts = split(v, '.');
    let ghost all = texts(parts@);
    if parts.len() != 3 {
        return None;
    }
    let mut numbers: Vec<u32> = Vec::new();
    let mut i: usize = 0;
    while i < parts.len()
        invariant
            i <= parts.len(),
            all == texts(parts@),
            all == split_on(v@, '.'),
            all.len() == 3,
            numbers_of(all.take(i as int)) == Some(numbers@),
        decreases parts.len() - i,
    {
        proof {
            let next = all.take(i + 1);
            assert(next.drop_last() == all.take(i as int));
            assert(next.last() == parts@[i as int]@);
        }
        let part = chars_of(parts[i].as_str());
        assert(part@.skip(0) =~= parts@[i as int]@);
        match parse_digits_u32(&part, 0) {
            Some(n) => {
                numbers.push(n);
            },
            None => {
                proof {
                    lemma_version_fails(all, i + 1);
                }
                return None;
            },
        }
        i += 1;
    }
    assert(all.take(i as int) == all);
    Some(numbers)
}

proof fn lemma_version_fails(parts: Seq<Seq<char>>, n: int)
    requires
        0 <= n <= parts.len(),
        numbers_of(parts.take(n)) is None,
    ensures
        numbers_of(parts) is None,
    decreases parts.len(),
{
    if n < parts.len() {
        assert(parts.drop_last().take(n) == parts.take(n));
        lemma_version_fails(parts.drop_last(), n);
    } else {
        assert(parts.take(n) == parts);
    }
}

fn version_less(a: &Vec<u32>, b: &Vec<u32>) -> (r: bool)
    ensures
        r == version_lt(a@, b@),
{
    let mut i: usize = 0;
    assert(a@.skip(0) == a@ && b@.skip(0) == b@);
    while i < a.len() && i < b.len()
        invariant
            i <= a.len(),
            i <= b.len(),
            version_lt(a@, b@) == version_lt(a@.skip(i as int), b@.skip(i as int)),
        decreases a.len() - i,
    {
        proof {
            assert(a@.skip(i as int).drop_first() == a@.skip(i + 1));
            assert(b@.skip(i as int).drop_first() == b@.skip(i + 1));
        }
        if a[i] != b[i] {
            return a[i] < b[i];
        }
        i += 1;
    }
    i < b.len()
}

/// Whether this program meets the demand of a bundle.
pub fn peach_version_satisfies(min_required: &str) -> (r: bool)
    ensures
        r == satisfies(PEACH_VERSION@, min_required@),
{
    match (parse_plain_version(min_required), parse_plain_version(PEACH_VERSION)) {
        (Some(min), Some(running)) => !version_less(&running, &min),
        _ => false,
    }
}

/// One entry of the directory that a bundle was unpacked into. A directory has
/// no bytes.
#[derive(Debug)]
pub struct BundleEntry {
    pub name: String,
    pub bytes: Option<Vec<u8>>,
}

/// The view of a [`BundleEntry`].
#[verifier::ext_equal]
pub struct BundleEntryView {
    pub name: Seq<char>,
    pub bytes: Option<Seq<u8>>,
}

impl View for BundleEntry {
    type V = BundleEntryView;

    open spec fn view(&self) -> BundleEntryView {
        BundleEntryView {
            name: self.name@,
            bytes: match self.bytes {
                Some(b) => Some(b@),
                None => None,
            },
        }
    }
}

/// The views of the entries of a bundle.
pub open spec fn entries_view(entries: Seq<BundleEntry>) -> Seq<BundleEntryView> {
    entries.map_values(|e: BundleEntry| e@)
}

/// Whether a digest can be taken of each file.
pub open spec fn can_be_hashed(entries: Seq<BundleEntryView>) -> bool {
    forall|i: int|
        0 <= i < entries.len() ==> match (#[trigger] entries[i]).bytes {
            Some(b) => b.len() < HASH_LIMIT,
            None => true,
        }
}

/// The bytes of the first file named `name`.
pub open spec fn file_bytes(entries: Seq<BundleEntryView>, name: Seq<char>) -> Option<Seq<u8>>
    decreases entries.len(),
{
    if entries.len() == 0 {
        None
    } else if entries[0].name == name && entries[0].bytes is Some {
        entries[0].bytes
    } else {
        file_bytes(entries.drop_first(), name)
    }
}

/// Why a bundle is refused.
#[derive(Debug)]
pub enum PackError {
    NoManifest,
    BadManifest(String),
    NeedsNewerPeach { required: String },
    DuplicateName,
    MissingFile(String),
    TamperedFile(String),
    UnlistedFile(String),
}

/// The view of a [`PackError`].
#[verifier::ext_equal]
pub enum PackErrorView {
    NoManifest,
    BadManifest(Seq<char>),
    NeedsNewerPeach { required: Seq<char> },
    DuplicateName,
    MissingFile(Seq<char>),
    TamperedFile(Seq<char>),
    UnlistedFile(Seq<char>),
}

impl View for PackError {
    type V = PackErrorView;

    open spec fn view(&self) -> PackErrorView {
        match self {
            PackError::NoManifest => PackErrorView::NoManifest,
            PackError::BadManifest(e) => PackErrorView::BadManifest(e@),
            PackError::NeedsNewerPeach { required } => PackErrorView::NeedsNewerPeach {
                required: required@,
            },
            PackError::DuplicateName => PackErrorView::DuplicateName,
            PackError::MissingFile(name) => PackErrorView::MissingFile(name@),
            PackError::TamperedFile(name) => PackErrorView::TamperedFile(name@),
            PackError::UnlistedFile(name) => PackErrorView::UnlistedFile(name@),
        }
    }
}

/// Why a bundle is refused, in words.
pub open spec fn pack_error_text(e: PackErrorView) -> Seq<char> {
    match e {
        PackErrorView::NoManifest =>
        "not a valid Peach rule pack: no manifest.toml found in the bundle"@,
        PackErrorView::BadManifest(reason) =>
        "not a valid Peach rule pack: manifest.toml could not be parsed: "@ + reason,
        PackErrorView::NeedsNewerPeach { required } => "this rule pack requires Peach "@ + required
            + " or newer (running "@ + PEACH_VERSION@ + ") — update Peach to apply it"@,
        PackErrorView::DuplicateName =>
        "not a valid Peach rule pack: manifest.toml lists the same file name more than once"@,
        PackErrorView::MissingFile(name) => "rule pack is missing "@ + name
            + " (listed in manifest.toml but not found in the bundle)"@,
        PackErrorView::TamperedFile(name) => "rule pack failed integrity verification: "@ + name
            + "'s hash doesn't match the manifest (the bundle may be corrupted or was modified after it was built)"@,
        PackErrorView::UnlistedFile(name) => "rule pack contains "@ + name
            + " which isn't listed in manifest.toml — refusing to trust an unaccounted-for file"@,
    }
}

impl PackError {
    /// The problem in words.
    pub fn message(&self) -> (r: String)
        ensures
            r@ == pack_error_text(self@),
    {
        match self {
            PackError::NoManifest =>
            "not a valid Peach rule pack: no manifest.toml found in the bundle".to_owned(),
            PackError::BadManifest(reason) => {
                let mut s =
                    "not a valid Peach rule pack: manifest.toml could not be parsed: ".to_owned();
                s.append(reason.as_str());
                s
            },
            PackError::NeedsNewerPeach { required } => {
                let mut s = "this rule pack requires Peach ".to_owned();
                s.append(required.as_str());
                s.append(" or newer (running ");
                s.append(PEACH_VERSION);
                s.append(") — update Peach to apply it");
                s
            },
            PackError::DuplicateName =>
            "not a valid Peach rule pack: manifest.toml lists the same file name more than once".to_owned(),
            PackError::MissingFile(name) => {
                let mut s = "rule pack is missing ".to_owned();
                s.append(name.as_str());
                s.append(" (listed in manifest.toml but not found in the bundle)");
                s
            },
            PackError::TamperedFile(name) => {
                let mut s = "rule pack failed integrity verification: ".to_owned();
                s.append(name.as_str());
                s.append(
                    "'s hash doesn't match the manifest (the bundle may be corrupted or was modified after it was built)",
                );
                s
            },
            PackError::UnlistedFile(name) => {
                let mut s = "rule pack contains ".to_owned();
                s.append(name.as_str());
                s.append(
                    " which isn't listed in manifest.toml — refusing to trust an unaccounted-for file",
                );
                s
            },
        }
    }
}

/// Whether a list names a file twice.
pub open spec fn names_repeat(files: Seq<FileEntryView>) -> bool {
    exists|i: int, j: int|
        0 <= i < j < files.len() && (#[trigger] files[i]).name == (#[trigger] files[j]).name
}

/// Whether a list names the file `name`.
pub open spec fn is_listed(files: Seq<FileEntryView>, name: Seq<char>) -> bool {
    exists|i: int| 0 <= i < files.len() && (#[trigger] files[i]).name == name
}

/// What is wrong with one listed file, if anything is.
pub open spec fn listed_problem(entries: Seq<BundleEntryView>, f: FileEntryView) -> Option<
    PackErrorView,
> {
    match file_bytes(entries, f.name) {
        None => Some(PackErrorView::MissingFile(f.name)),
        Some(b) => if hex(sha256(b)) == f.sha256 {
            None
        } else {
            Some(PackErrorView::TamperedFile(f.name))
        },
    }
}

/// What is wrong with the first listed file that is not as it should be.
pub open spec fn first_listed_problem(
    entries: Seq<BundleEntryView>,
    files: Seq<FileEntryView>,
) -> Option<PackErrorView>
    decreases files.len(),
{
    if files.len() == 0 {
        None
    } else {
        match listed_problem(entries, files[0]) {
            Some(e) => Some(e),
            None => first_listed_problem(entries, files.drop_first()),
        }
    }
}

/// Whether entry `i` is accounted for: it is the manifest, or it is listed and
/// no earlier entry has its name.
pub open spec fn accounted_for(
    entries: Seq<BundleEntryView>,
    files: Seq<FileEntryView>,
    i: int,
) -> bool {
    ||| entries[i].name == "manifest.toml"@
    ||| is_listed(files, entries[i].name) && forall|j: int|
        0 <= j < i ==> (#[trigger] entries[j]).name != entries[i].name
}

/// The first entry from `i` on that is not accounted for.
pub open spec fn first_unlisted(
    entries: Seq<BundleEntryView>,
    files: Seq<FileEntryView>,
    i: int,
) -> Option<PackErrorView>
    decreases entries.len() - i,
{
    if i < 0 || i >= entries.len() {
        None
    } else if accounted_for(entries, files, i) {
        first_unlisted(entries, files, i + 1)
    } else {
        Some(PackErrorView::UnlistedFile(entries[i].name))
    }
}

/// What a manifest says of the bundle it came with: nothing wrong, or the first
/// thing that is.
pub open spec fn manifest_problem(entries: Seq<BundleEntryView>, m: ManifestView) -> Option<
    PackErrorView,
> {
    if !satisfies(PEACH_VERSION@, m.min_peach_version) {
        Some(PackErrorView::NeedsNewerPeach { required: m.min_peach_version })
    } else if names_repeat(m.files) {
        Some(PackErrorView::DuplicateName)
    } else {
        match first_listed_problem(entries, m.files) {
            Some(e) => Some(e),
            None => first_unlisted(entries, m.files, 0),
        }
    }
}

/// The manifest of a bundle that can be trusted, or why it cannot.
pub open spec fn bundle_verdict(entries: Seq<BundleEntryView>) -> Result<
    ManifestView,
    PackErrorView,
> {
    let text = match file_bytes(entries, "manifest.toml"@) {
        Some(b) => utf8_view(b),
        None => None,
    };
    match text {
        None => Err(PackErrorView::NoManifest),
        Some(text) => match manifest_of_text(text) {
            Err(e) => Err(PackErrorView::BadManifest(e)),
            Ok(m) => match manifest_problem(entries, m) {
                Some(e) => Err(e),
                None => Ok(m),
            },
        },
    }
}

fn find_file<'a>(entries: &'a Vec<BundleEntry>, name: &str) -> (r: Option<&'a Vec<u8>>)
    ensures
        match r {
            Some(b) => file_bytes(entries_view(entries@), name@) == Some(b@),
            None => file_bytes(entries_view(entries@), name@) is None,
        },
        can_be_hashed(entries_view(entries@)) ==> match r {
            Some(b) => b@.len() < HASH_LIMIT,
            None => true,
        },
{
    let ghost all = entries_view(entries@);
    let mut i: usize = 0;
    assert(all.skip(0) == all);
    while i < entries.len()
        invariant
            i <= entries.len(),
            all == entries_view(entries@),
            file_bytes(all, name@) == file_bytes(all.skip(i as int), name@),
        decreases entries.len() - i,
    {
        proof {
            assert(all.skip(i as int)[0] == entries@[i as int]@);
            assert(all.skip(i as int).drop_first() == all.skip(i + 1));
        }
        if same(entries[i].name.as_str(), name) {
            assert(all[i as int] == entries@[i as int]@);
            if let Some(b) = &entries[i].bytes {
                return Some(b);
            }
        }
        i += 1;
    }
    None
}

fn lists_name(files: &Vec<PackFileEntry>, name: &str, from: usize) -> (r: bool)
    requires
        from <= files.len(),
    ensures
        r == exists|i: int|
            from <= i < files.len() && (#[trigger] files_view(files@)[i]).name == name@,
{
    let mut i: usize = from;
    while i < files.len()
        invariant
            from <= i <= files.len(),
            forall|j: int| from <= j < i ==> (#[trigger] files_view(files@)[j]).name != name@,
        decreases files.len() - i,
    {
        assert(files_view(files@)[i as int] == files@[i as int]@);
        if same(files[i].name.as_str(), name) {
            return true;
        }
        i += 1;
    }
    false
}

fn has_repeats(files: &Vec<PackFileEntry>) -> (r: bool)
    ensures
        r == names_repeat(files_view(files@)),
{
    let ghost fv = files_view(files@);
    let mut i: usize = 0;
    while i < files.len()
        invariant
            i <= files.len(),
            fv == files_view(files@),
            forall|a: int, b: int|
                0 <= a < i && a < b < files.len() ==> (#[trigger] fv[a]).name != (
                #[trigger] fv[b]).name,
        decreases files.len() - i,
    {
        assert(fv[i as int] == files@[i as int]@);
        if lists_name(files, files[i].name.as_str(), i + 1) {
            proof {
                let j = choose|j: int|
                    i + 1 <= j < files.len() && (#[trigger] fv[j]).name == fv[i as int].name;
                assert(fv[i as int].name == fv[j].name);
            }
            return true;
        }
        i += 1;
    }
    false
}

fn check_listed(entries: &Vec<BundleEntry>, files: &Vec<PackFileEntry>) -> (r: Option<PackError>)
    requires
        can_be_hashed(entries_view(entries@)),
    ensures
        match r {
            Some(e) => first_listed_problem(entries_view(entries@), files_view(files@)) == Some(e@),
            None => first_listed_problem(entries_view(entries@), files_view(files@)) is None,
        },
{
    let ghost ev = entries_view(entries@);
    let ghost fv = files_view(files@);
    let mut i: usize = 0;
    assert(fv.skip(0) == fv);
    while i < files.len()
        invariant
            i <= files.len(),
            ev == entries_view(entries@),
            fv == files_view(files@),
            can_be_hashed(ev),
            first_listed_problem(ev, fv) == first_listed_problem(ev, fv.skip(i as int)),
        decreases files.len() - i,
    {
        let f = &files[i];
        proof {
            assert(fv.skip(i as int)[0] == f@);
            assert(fv.skip(i as int).drop_first() == fv.skip(i + 1));
        }
        match find_file(entries, f.name.as_str()) {
            None => {
                return Some(PackError::MissingFile(f.name.clone()));
            },
            Some(b) => {
                let actual = sha256_hex(b.as_slice());
                if !same(actual.as_str(), f.sha256.as_str()) {
                    return Some(PackError::TamperedFile(f.name.clone()));
                }
            },
        }
        i += 1;
    }
    None
}

fn repeats_earlier(entries: &Vec<BundleEntry>, i: usize) -> (r: bool)
    requires
        i < entries.len(),
    ensures
        r == exists|j: int|
            0 <= j < i && (#[trigger] entries_view(entries@)[j]).name == entries_view(
                entries@,
            )[i as int].name,
{
    let ghost ev = entries_view(entries@);
    assert(ev[i as int] == entries@[i as int]@);
    let mut j: usize = 0;
    while j < i
        invariant
            j <= i < entries.len(),
            ev == entries_view(entries@),
            ev[i as int] == entries@[i as int]@,
            forall|k: int| 0 <= k < j ==> (#[trigger] ev[k]).name != ev[i as int].name,
        decreases i - j,
    {
        assert(ev[j as int] == entries@[j as int]@);
        if same(entries[j].name.as_str(), entries[i].name.as_str()) {
            return true;
        }
        j += 1;
    }
    false
}

fn check_unlisted(entries: &Vec<BundleEntry>, files: &Vec<PackFileEntry>) -> (r: Option<PackError>)
    ensures
        match r {
            Some(e) => first_unlisted(entries_view(entries@), files_view(files@), 0) == Some(e@),
            None => first_unlisted(entries_view(entries@), files_view(files@), 0) is None,
        },
{
    let ghost ev = entries_view(entries@);
    let ghost fv = files_view(files@);
    let mut i: usize = 0;
    while i < entries.len()
        invariant
            i <= entries.len(),
            ev == entries_view(entries@),
            fv == files_view(files@),
            first_unlisted(ev, fv, 0) == first_unlisted(ev, fv, i as int),
        decreases entries.len() - i,
    {
        assert(ev[i as int] == entries@[i as int]@);
        let name = &entries[i].name;
        let is_manifest: bool = same(name.as_str(), "manifest.toml");
        let listed: bool = lists_name(files, name.as_str(), 0);
        let repeated: bool = repeats_earlier(entries, i);
        proof {
            assert(listed == is_listed(fv, name@));
            assert(accounted_for(ev, fv, i as int) == (is_manifest || (listed && !repeated)));
        }
        if !is_manifest && (!listed || repeated) {
            return Some(PackError::UnlistedFile(name.clone()));
        }
        i += 1;
    }
    None
}

/// Decides on an unpacked bundle whose manifest was read.
pub fn verify_manifest(entries: &Vec<BundleEntry>, manifest: &PackManifest) -> (r: Option<PackError>)
    requires
        can_be_hashed(entries_view(entries@)),
    ensures
        match r {
            Some(e) => manifest_problem(entries_view(entries@), manifest@) == Some(e@),
            None => manifest_problem(entries_view(entries@), manifest@) is None,
        },
{
    if !peach_version_satisfies(manifest.pack.min_peach_version.as_str()) {
        return Some(
            PackError::NeedsNewerPeach { required: manifest.pack.min_peach_version.clone() },
        );
    }
    if has_repeats(&manifest.files) {
        return Some(PackError::DuplicateName);
    }
    match check_listed(entries, &manifest.files) {
        Some(e) => Some(e),
        None => check_unlisted(entries, &manifest.files),
    }
}

/// A bundle that can be trusted: its manifest, and what it was unpacked to.
#[derive(Debug)]
pub struct LoadedPackBundle {
    pub manifest: PackManifest,
    pub entries: Vec<BundleEntry>,
}

/// Decides on an unpacked bundle: one that can be trusted is handed back with
/// its manifest, else it is said why it cannot.
pub fn load_pack_bundle(entries: Vec<BundleEntry>) -> (r: Result<LoadedPackBundle, PackError>)
    requires
        can_be_hashed(entries_view(entries@)),
    ensures
        match r {
            Ok(bundle) => {
                &&& bundle_verdict(entries_view(entries@)) == Ok::<ManifestView, PackErrorView>(
                    bundle.manifest@,
                )
                &&& bundle.entries == entries
            },
            Err(e) => bundle_verdict(entries_view(entries@)) == Err::<ManifestView, PackErrorView>(
                e@,
            ),
        },
{
    let text = match find_file(&entries, "manifest.toml") {
        Some(bytes) => utf8_string(bytes.as_slice()),
        None => None,
    };
    let text = match text {
        Some(text) => text,
        None => {
            return Err(PackError::NoManifest);
        },
    };
    let manifest = match parse_manifest(text.as_str()) {
        Ok(manifest) => manifest,
        Err(e) => {
            return Err(PackError::BadManifest(e));
        },
    };
    match verify_manifest(&entries, &manifest) {
        Some(e) => Err(e),
        None => Ok(LoadedPackBundle { manifest, entries }),
    }
}

/// The manifest of the pack that is applied, for showing it; none where its
/// text cannot be read.
pub fn read_applied_manifest(text: Option<&str>) -> (r: Option<PackManifest>)
    ensures
        match r {
            Some(m) => text is Some && manifest_of_text(text->0@) == Ok::<ManifestView, Seq<char>>(
                m@,
            ),
            None => text is None || manifest_of_text(text->0@) is Err,
        },
{
    match text {
        Some(text) => match parse_manifest(text) {
            Ok(m) => Some(m),
            Err(_) => None,
        },
        None => None,
    }
}

/// A bundle that is trusted holds exactly what its manifest lists: every listed
/// file with its SHA-256, each once, and beside them only the manifest.
pub proof fn lemma_trusted_bundle_is_exact(entries: Seq<BundleEntryView>, m: ManifestView)
    requires
        manifest_problem(entries, m) is None,
    ensures
        forall|i: int|
            0 <= i < m.files.len() ==> match file_bytes(entries, (#[trigger] m.files[i]).name) {
                Some(b) => hex(sha256(b)) == m.files[i].sha256,
                None => false,
            },
        !names_repeat(m.files),
        forall|i: int|
            0 <= i < entries.len() ==> (#[trigger] entries[i]).name == "manifest.toml"@
                || is_listed(m.files, entries[i].name),
{
    lemma_all_listed(entries, m.files);
    lemma_all_accounted(entries, m.files, 0);
    assert forall|i: int| 0 <= i < entries.len() implies (#[trigger] entries[i]).name
        == "manifest.toml"@ || is_listed(m.files, entries[i].name) by {
        assert(accounted_for(entries, m.files, i));
    }
}

proof fn lemma_all_listed(entries: Seq<BundleEntryView>, files: Seq<FileEntryView>)
    requires
        first_listed_problem(entries, files) is None,
    ensures
        forall|i: int|
            0 <= i < files.len() ==> match file_bytes(entries, (#[trigger] files[i]).name) {
                Some(b) => hex(sha256(b)) == files[i].sha256,
                None => false,
            },
    decreases files.len(),
{
    if files.len() > 0 {
        let rest = files.drop_first();
        lemma_all_listed(entries, rest);
        assert forall|i: int| 0 <= i < files.len() implies match file_bytes(
            entries,
            (#[trigger] files[i]).name,
        ) {
            Some(b) => hex(sha256(b)) == files[i].sha256,
            None => false,
        } by {
            if i > 0 {
                assert(files[i] == rest[i - 1]);
            }
        }
    }
}

proof fn lemma_all_accounted(entries: Seq<BundleEntryView>, files: Seq<FileEntryView>, i: int)
    requires
        0 <= i <= entries.len(),
        first_unlisted(entries, files, i) is None,
    ensures
        forall|j: int| i <= j < entries.len() ==> #[trigger] accounted_for(entries, files, j),
    decreases entries.len() - i,
{
    if i < entries.len() {
        lemma_all_accounted(entries, files, i + 1);
    }
}

/// A demand that cannot be read is never met.
pub proof fn lemma_unreadable_demand_is_refused(running: Seq<char>, required: Seq<char>)
    requires
        plain_version(required) is None,
    ensures
        !satisfies(running, required),
{
}

} // verus!
