//! Choosing a rule pack among published releases.

use vstd::prelude::*;

use crate::json::{items_view, lemma_items_view, parse_json, parsed_json, Json, JsonView};
use crate::stored::{as_object, list_as_object, need_text_member, text_member};
use crate::text::{chars_of, dec, dec_u64, digits_u32, parse_digits_u32, same, str_views};

verus! {

/// A file of a release.
#[derive(Debug)]
pub struct GithubReleaseAsset {
    pub name: String,
    pub browser_download_url: String,
}

/// A published release.
#[derive(Debug)]
pub struct GithubRelease {
    pub tag_name: String,
    pub assets: Vec<GithubReleaseAsset>,
}

/// The view of a [`GithubRelease`]: its tag, and the names of its files with where
/// they can be downloaded.
#[verifier::ext_equal]
pub struct ReleaseView {
    pub tag_name: Seq<char>,
    pub assets: Seq<(Seq<char>, Seq<char>)>,
}

/// The views of a list of files.
pub open spec fn assets_view(v: Seq<GithubReleaseAsset>) -> Seq<(Seq<char>, Seq<char>)> {
    v.map_values(|a: GithubReleaseAsset| (a.name@, a.browser_download_url@))
}

impl View for GithubRelease {
    type V = ReleaseView;

    open spec fn view(&self) -> ReleaseView {
        ReleaseView { tag_name: self.tag_name@, assets: assets_view(self.assets@) }
    }
}

/// The views of a list of releases.
pub open spec fn releases_view(v: Seq<GithubRelease>) -> Seq<ReleaseView> {
    v.map_values(|r: GithubRelease| r@)
}

/// A rule pack that can be downloaded.
#[derive(Debug, PartialEq)]
pub struct AvailableUpdate {
    pub pack_version: u32,
    pub tag_name: String,
    pub download_url: String,
}

/// The view of an [`AvailableUpdate`].
#[verifier::ext_equal]
pub struct UpdateView {
    pub pack_version: u32,
    pub tag_name: Seq<char>,
    pub download_url: Seq<char>,
}

impl View for AvailableUpdate {
    type V = UpdateView;

    open spec fn view(&self) -> UpdateView {
        UpdateView {
            pack_version: self.pack_version,
            tag_name: self.tag_name@,
            download_url: self.download_url@,
        }
    }
}

/// The number of a tag of the form `v` and the decimal digits of a number.
pub open spec fn tag_version(tag: Seq<char>) -> Option<u32> {
    if tag.len() > 0 && tag[0] == 'v' {
        digits_u32(tag.skip(1))
    } else {
        None
    }
}

/// The name of the file that holds the pack of a version.
pub open spec fn asset_name(version: u32) -> Seq<char> {
    "peach-rules-v"@ + dec(version as nat) + ".zip"@
}

/// Where the first file named `name` can be downloaded.
pub open spec fn asset_url(assets: Seq<(Seq<char>, Seq<char>)>, name: Seq<char>) -> Option<Seq<char>>
    decreases assets.len(),
{
    if assets.len() == 0 {
        None
    } else if assets[0].0 == name {
        Some(assets[0].1)
    } else {
        asset_url(assets.drop_first(), name)
    }
}

/// The pack that a release offers: its tag has a number, it has the file of
/// that number, and the number is over the current one.
pub open spec fn offer(release: ReleaseView, current: Option<u32>) -> Option<UpdateView> {
    match tag_version(release.tag_name) {
        Some(version) => match asset_url(release.assets, asset_name(version)) {
            Some(url) => if current is None || version > current->0 {
                Some(
                    UpdateView {
                        pack_version: version,
                        tag_name: release.tag_name,
                        download_url: url,
                    },
                )
            } else {
                None
            },
            None => None,
        },
        None => None,
    }
}

/// The offers among the first `n` releases are none.
pub open spec fn no_offer(releases: Seq<ReleaseView>, current: Option<u32>, n: int) -> bool {
    forall|i: int| 0 <= i < n ==> (#[trigger] offer(releases[i], current)) is None
}

/// Whether the offer of release `k` is the best among the first `n`: no other
/// has a higher number, and no later one the same.
pub open spec fn best_offer(releases: Seq<ReleaseView>, current: Option<u32>, n: int, k: int) -> bool {
    &&& 0 <= k < n
    &&& offer(releases[k], current) is Some
    &&& forall|i: int|
        0 <= i < n && (#[trigger] offer(releases[i], current)) is Some ==> {
            let best = offer(releases[k], current)->0.pack_version;
            let other = offer(releases[i], current)->0.pack_version;
            other < best || (other == best && i <= k)
        }
}

/// The number of a tag of the form `v` and the decimal digits of a number.
pub fn tag_pack_version(tag_name: &str) -> (r: Option<u32>)
    ensures
        r == tag_version(tag_name@),
{
    let v = chars_of(tag_name);
    if v.len() == 0 || v[0] != 'v' {
        return None;
    }
    parse_digits_u32(&v, 1)
}

fn find_asset(assets: &Vec<GithubReleaseAsset>, name: &str) -> (r: Option<String>)
    ensures
        match r {
            Some(url) => asset_url(assets_view(assets@), name@) == Some(url@),
            None => asset_url(assets_view(assets@), name@) is None,
        },
{
    let ghost all = assets_view(assets@);
    let mut i: usize = 0;
    assert(all.skip(0) == all);
    while i < assets.len()
        invariant
            i <= assets.len(),
            all == assets_view(assets@),
            asset_url(all, name@) == asset_url(all.skip(i as int), name@),
        decreases assets.len() - i,
    {
        proof {
            assert(all.skip(i as int)[0] == (
                assets@[i as int].name@,
                assets@[i as int].browser_download_url@,
            ));
            assert(all.skip(i as int).drop_first() == all.skip(i + 1));
        }
        if same(assets[i].name.as_str(), name) {
            return Some(assets[i].browser_download_url.clone());
        }
        i += 1;
    }
    None
}

fn offer_of(release: &GithubRelease, current: Option<u32>) -> (r: Option<AvailableUpdate>)
    ensures
        match r {
            Some(u) => offer(release@, current) == Some(u@),
            None => offer(release@, current) is None,
        },
{
    let version: u32 = match tag_pack_version(release.tag_name.as_str()) {
        Some(version) => version,
        None => {
            return None;
        },
    };
    let mut name = "peach-rules-v".to_owned();
    name.append(dec_u64(version as u64).as_str());
    name.append(".zip");
    let url = match find_asset(&release.assets, name.as_str()) {
        Some(url) => url,
        None => {
            return None;
        },
    };
    let newer: bool = match current {
        Some(current) => version > current,
        None => true,
    };
    if newer {
        Some(
            AvailableUpdate {
                pack_version: version,
                tag_name: release.tag_name.clone(),
                download_url: url,
            },
        )
    } else {
        None
    }
}

/// Whether the pack that is picked among releases is this one: the one with the
/// highest number that is over the current one, or none where no release offers
/// one.
pub open spec fn is_latest(
    releases: Seq<ReleaseView>,
    current: Option<u32>,
    picked: Option<UpdateView>,
) -> bool {
    match picked {
        Some(u) => exists|k: int| #[trigger]
            best_offer(releases, current, releases.len() as int, k) && offer(releases[k], current)
                == Some(u),
        None => no_offer(releases, current, releases.len() as int),
    }
}

/// The view of an optional pack.
pub open spec fn opt_update(u: Option<AvailableUpdate>) -> Option<UpdateView> {
    match u {
        Some(u) => Some(u@),
        None => None,
    }
}

/// The pack with the highest number that is over the current one, if any
/// release offers one.
pub fn pick_latest_update(releases: &Vec<GithubRelease>, current_pack_version: Option<u32>) -> (r:
    Option<AvailableUpdate>)
    ensures
        is_latest(releases_view(releases@), current_pack_version, opt_update(r)),
{
    let ghost rv = releases_view(releases@);
    let mut best: Option<AvailableUpdate> = None;
    let ghost mut at: int = 0;
    let mut i: usize = 0;
    while i < releases.len()
        invariant
            i <= releases.len(),
            rv == releases_view(releases@),
            match best {
                Some(u) => {
                    &&& best_offer(rv, current_pack_version, i as int, at)
                    &&& offer(rv[at], current_pack_version) == Some(u@)
                },
                None => no_offer(rv, current_pack_version, i as int),
            },
        decreases releases.len() - i,
    {
        assert(rv[i as int] == releases@[i as int]@);
        if let Some(found) = offer_of(&releases[i], current_pack_version) {
            let takes: bool = match &best {
                Some(u) => found.pack_version >= u.pack_version,
                None => true,
            };
            if takes {
                best = Some(found);
                proof {
                    at = i as int;
                }
            }
        }
        i += 1;
    }
    proof {
        assert(rv.len() == releases@.len());
        if best is Some {
            assert(best_offer(rv, current_pack_version, rv.len() as int, at));
        }
    }
    best
}

/// There is at most one pack to pick.
pub proof fn lemma_one_latest(
    releases: Seq<ReleaseView>,
    current: Option<u32>,
    a: Option<UpdateView>,
    b: Option<UpdateView>,
)
    requires
        is_latest(releases, current, a),
        is_latest(releases, current, b),
    ensures
        a == b,
{
    let n = releases.len() as int;
    if a is Some {
        let i = choose|k: int| #[trigger]
            best_offer(releases, current, n, k) && offer(releases[k], current) == a;
        assert(offer(releases[i], current) is Some);
        if b is Some {
            let j = choose|k: int| #[trigger]
                best_offer(releases, current, n, k) && offer(releases[k], current) == b;
            assert(offer(releases[j], current) is Some);
            assert(i == j);
        }
    } else if b is Some {
        let j = choose|k: int| #[trigger]
            best_offer(releases, current, n, k) && offer(releases[k], current) == b;
        assert(offer(releases[j], current) is Some);
    }
}

/// The file of a release that JSON stands for, or why it stands for none.
pub open spec fn asset_in(item: JsonView) -> Result<(Seq<char>, Seq<char>), Seq<char>> {
    let v = as_object(item, seq!["name"@, "browser_download_url"@], 2);
    match (text_member(v, "name"@), text_member(v, "browser_download_url"@)) {
        (Ok(name), Ok(url)) => Ok((name, url)),
        (Err(e), _) => Err(e),
        (_, Err(e)) => Err(e),
    }
}

/// The files of a release that the items of an array stand for.
pub open spec fn assets_in(items: Seq<JsonView>) -> Result<Seq<(Seq<char>, Seq<char>)>, Seq<char>>
    decreases items.len(),
{
    if items.len() == 0 {
        Ok(seq![])
    } else {
        match assets_in(items.drop_last()) {
            Err(e) => Err(e),
            Ok(before) => match asset_in(items.last()) {
                Err(e) => Err(e),
                Ok(a) => Ok(before.push(a)),
            },
        }
    }
}

/// The release that JSON stands for, or why it stands for none. One that lists no
/// files has none.
pub open spec fn release_in(item: JsonView) -> Result<ReleaseView, Seq<char>> {
    let v = as_object(item, seq!["tag_name"@, "assets"@], 1);
    match text_member(v, "tag_name"@) {
        Err(e) => Err(e),
        Ok(tag_name) => match v.get("assets"@) {
            None => Ok(ReleaseView { tag_name, assets: seq![] }),
            Some(JsonView::Array(items)) => match assets_in(items) {
                Ok(assets) => Ok(ReleaseView { tag_name, assets }),
                Err(e) => Err(e),
            },
            Some(_) => Err("field `assets` is not a list"@),
        },
    }
}

/// The releases that the items of an array stand for.
pub open spec fn releases_in(items: Seq<JsonView>) -> Result<Seq<ReleaseView>, Seq<char>>
    decreases items.len(),
{
    if items.len() == 0 {
        Ok(seq![])
    } else {
        match releases_in(items.drop_last()) {
            Err(e) => Err(e),
            Ok(before) => match release_in(items.last()) {
                Err(e) => Err(e),
                Ok(r) => Ok(before.push(r)),
            },
        }
    }
}

/// The releases that a text lists, or why it lists none.
pub open spec fn releases_of_text(text: Seq<char>) -> Result<Seq<ReleaseView>, Seq<char>> {
    match parsed_json(text) {
        Err(e) => Err(e),
        Ok(JsonView::Array(items)) => releases_in(items),
        Ok(_) => Err("not a list of releases"@),
    }
}

proof fn lemma_assets_fail(items: Seq<JsonView>, n: int)
    requires
        0 <= n <= items.len(),
        assets_in(items.take(n)) is Err,
    ensures
        assets_in(items) == assets_in(items.take(n)),
    decreases items.len(),
{
    if n < items.len() {
        assert(items.drop_last().take(n) == items.take(n));
        lemma_assets_fail(items.drop_last(), n);
    } else {
        assert(items.take(n) == items);
    }
}

proof fn lemma_releases_fail(items: Seq<JsonView>, n: int)
    requires
        0 <= n <= items.len(),
        releases_in(items.take(n)) is Err,
    ensures
        releases_in(items) == releases_in(items.take(n)),
    decreases items.len(),
{
    if n < items.len() {
        assert(items.drop_last().take(n) == items.take(n));
        lemma_releases_fail(items.drop_last(), n);
    } else {
        assert(items.take(n) == items);
    }
}

fn read_asset(v: &Json) -> (r: Result<GithubReleaseAsset, String>)
    ensures
        match r {
            Ok(a) => asset_in(v@) == Ok::<(Seq<char>, Seq<char>), Seq<char>>(
                (a.name@, a.browser_download_url@),
            ),
            Err(e) => asset_in(v@) == Err::<(Seq<char>, Seq<char>), Seq<char>>(e@),
        },
{
    let fields: [&'static str; 2] = ["name", "browser_download_url"];
    assert(str_views(fields@) =~= seq!["name"@, "browser_download_url"@]);
    let listed = list_as_object(v, &fields, 2);
    let v = match &listed {
        Some(object) => object,
        None => v,
    };
    let name = match need_text_member(v, "name") {
        Ok(x) => x,
        Err(e) => {
            return Err(e);
        },
    };
    match need_text_member(v, "browser_download_url") {
        Ok(browser_download_url) => Ok(GithubReleaseAsset { name, browser_download_url }),
        Err(e) => Err(e),
    }
}

fn read_assets(items: &Vec<Json>) -> (r: Result<Vec<GithubReleaseAsset>, String>)
    ensures
        match r {
            Ok(v) => assets_in(items_view(items@)) == Ok::<
                Seq<(Seq<char>, Seq<char>)>,
                Seq<char>,
            >(assets_view(v@)),
            Err(e) => assets_in(items_view(items@)) == Err::<
                Seq<(Seq<char>, Seq<char>)>,
                Seq<char>,
            >(e@),
        },
{
    let ghost all = items_view(items@);
    let mut r: Vec<GithubReleaseAsset> = Vec::new();
    let mut i: usize = 0;
    assert(assets_view(r@) =~= seq![]);
    while i < items.len()
        invariant
            i <= items.len(),
            all == items_view(items@),
            assets_in(all.take(i as int)) == Ok::<Seq<(Seq<char>, Seq<char>)>, Seq<char>>(
                assets_view(r@),
            ),
        decreases items.len() - i,
    {
        let ghost before = r@;
        proof {
            lemma_items_view(items@);
            let next = all.take(i + 1);
            assert(next.drop_last() == all.take(i as int));
            assert(next.last() == items@[i as int]@);
        }
        match read_asset(&items[i]) {
            Ok(a) => {
                let ghost av = (a.name@, a.browser_download_url@);
                r.push(a);
                assert(assets_view(r@) =~= assets_view(before).push(av));
            },
            Err(e) => {
                proof {
                    lemma_assets_fail(all, i + 1);
                }
                return Err(e);
            },
        }
        i += 1;
    }
    assert(all.take(i as int) == all);
    Ok(r)
}

fn read_release(v: &Json) -> (r: Result<GithubRelease, String>)
    ensures
        match r {
            Ok(x) => release_in(v@) == Ok::<ReleaseView, Seq<char>>(x@),
            Err(e) => release_in(v@) == Err::<ReleaseView, Seq<char>>(e@),
        },
{
    let fields: [&'static str; 2] = ["tag_name", "assets"];
    assert(str_views(fields@) =~= seq!["tag_name"@, "assets"@]);
    let listed = list_as_object(v, &fields, 1);
    let v = match &listed {
        Some(object) => object,
        None => v,
    };
    let tag_name = match need_text_member(v, "tag_name") {
        Ok(x) => x,
        Err(e) => {
            return Err(e);
        },
    };
    match v.get("assets") {
        None => {
            let assets: Vec<GithubReleaseAsset> = Vec::new();
            assert(assets_view(assets@) =~= seq![]);
            Ok(GithubRelease { tag_name, assets })
        },
        Some(Json::Array(items)) => match read_assets(items) {
            Ok(assets) => Ok(GithubRelease { tag_name, assets }),
            Err(e) => Err(e),
        },
        Some(_) => Err("field `assets` is not a list".to_owned()),
    }
}

/// The releases that a text lists, or why it lists none.
pub fn parse_releases(text: &str) -> (r: Result<Vec<GithubRelease>, String>)
    ensures
        match r {
            Ok(v) => releases_of_text(text@) == Ok::<Seq<ReleaseView>, Seq<char>>(
                releases_view(v@),
            ),
            Err(e) => releases_of_text(text@) == Err::<Seq<ReleaseView>, Seq<char>>(e@),
        },
{
    let v = match parse_json(text) {
        Ok(v) => v,
        Err(e) => {
            return Err(e);
        },
    };
    let items = match &v {
        Json::Array(items) => items,
        _ => {
            return Err("not a list of releases".to_owned());
        },
    };
    let ghost all = items_view(items@);
    let mut r: Vec<GithubRelease> = Vec::new();
    let mut i: usize = 0;
    assert(releases_view(r@) =~= seq![]);
    while i < items.len()
        invariant
            i <= items.len(),
            all == items_view(items@),
            releases_of_text(text@) == releases_in(all),
            releases_in(all.take(i as int)) == Ok::<Seq<ReleaseView>, Seq<char>>(
                releases_view(r@),
            ),
        decreases items.len() - i,
    {
        let ghost before = r@;
        proof {
            lemma_items_view(items@);
            let next = all.take(i + 1);
            assert(next.drop_last() == all.take(i as int));
            assert(next.last() == items@[i as int]@);
        }
        match read_release(&items[i]) {
            Ok(x) => {
                let ghost xv = x@;
                r.push(x);
                assert(releases_view(r@) =~= releases_view(before).push(xv));
            },
            Err(e) => {
                proof {
                    lemma_releases_fail(all, i + 1);
                }
                return Err(e);
            },
        }
        i += 1;
    }
    assert(all.take(i as int) == all);
    Ok(r)
}

/// Looks for a newer pack in the answer of the server, which is the text of its
/// list of releases, or why there is none. That nothing is newer is no error.
pub fn check_for_update(answer: Result<String, String>, current_pack_version: Option<u32>) -> (r:
    Result<Option<AvailableUpdate>, String>)
    ensures
        match answer {
            Err(reason) => r matches Err(e) && e@
                == "failed to reach GitHub to check for rule pack updates: "@ + reason@,
            Ok(text) => match releases_of_text(text@) {
                Err(reason) => r matches Err(e) && e@
                    == "failed to parse GitHub's release list: "@ + reason,
                Ok(releases) => r matches Ok(u) && is_latest(
                    releases,
                    current_pack_version,
                    opt_update(u),
                ),
            },
        },
{
    let text = match answer {
        Ok(text) => text,
        Err(reason) => {
            let mut e = "failed to reach GitHub to check for rule pack updates: ".to_owned();
            e.append(reason.as_str());
            return Err(e);
        },
    };
    match parse_releases(text.as_str()) {
        Ok(releases) => Ok(pick_latest_update(&releases, current_pack_version)),
        Err(reason) => {
            let mut e = "failed to parse GitHub's release list: ".to_owned();
            e.append(reason.as_str());
            Err(e)
        },
    }
}

/// The pack that is picked is over the current one, and no release offers a higher
/// one.
pub proof fn lemma_best_offer_is_newest(
    releases: Seq<ReleaseView>,
    current: Option<u32>,
    k: int,
)
    requires
        best_offer(releases, current, releases.len() as int, k),
    ensures
        current is None || offer(releases[k], current)->0.pack_version > current->0,
        forall|i: int|
            0 <= i < releases.len() && (#[trigger] offer(releases[i], current)) is Some
                ==> offer(releases[i], current)->0.pack_version <= offer(
                releases[k],
                current,
            )->0.pack_version,
{
}

} // verus!
