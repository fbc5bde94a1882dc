//! Which pack of rules a list of releases offers.

use vstd::prelude::*;

use crate::json::JsonView;
use crate::tagging::pack_update::{
    asset_in, asset_name, asset_url, assets_in, best_offer, is_latest, offer, release_in,
    releases_in, tag_version, ReleaseView, UpdateView,
};
use crate::text::{dec, numeral};
use crate::text_laws::lemma_digits_of_number;

verus! {

/// Whether a release has the pack of a version and it can be downloaded at an address: its tag
/// is `v` and the digits of the version, and the first of its files that is named after the
/// version lies there.
pub open spec fn has_pack(release: ReleaseView, version: u32, url: Seq<char>) -> bool {
    &&& release.tag_name.len() > 0
    &&& release.tag_name[0] == 'v'
    &&& numeral(release.tag_name.skip(1)) == Some(version as nat)
    &&& exists|i: int|
        0 <= i < release.assets.len() && #[trigger] release.assets[i] == (
            "peach-rules-v"@ + dec(version as nat) + ".zip"@,
            url,
        ) && forall|j: int|
            0 <= j < i ==> (#[trigger] release.assets[j]).0 != "peach-rules-v"@ + dec(
                version as nat,
            ) + ".zip"@
}

proof fn lemma_asset(assets: Seq<(Seq<char>, Seq<char>)>, name: Seq<char>) -> (at: int)
    ensures
        match asset_url(assets, name) {
            Some(url) => 0 <= at < assets.len() && assets[at] == (name, url) && forall|j: int|
                0 <= j < at ==> (#[trigger] assets[j]).0 != name,
            None => forall|j: int| 0 <= j < assets.len() ==> (#[trigger] assets[j]).0 != name,
        },
    decreases assets.len(),
{
    if assets.len() == 0 {
        0
    } else if assets[0].0 == name {
        0
    } else {
        let rest = assets.drop_first();
        let at = lemma_asset(rest, name);
        assert forall|j: int|
            0 <= j < assets.len() && (asset_url(assets, name) is Some ==> j < at + 1) implies (
        #[trigger] assets[j]).0 != name by {
            if j > 0 {
                assert(rest[j - 1] == assets[j]);
            }
        }
        at + 1
    }
}

proof fn lemma_offer(release: ReleaseView, current: Option<u32>)
    ensures
        match offer(release, current) {
            Some(u) => has_pack(release, u.pack_version, u.download_url) && u.tag_name
                == release.tag_name && (current matches Some(c) ==> u.pack_version > c),
            None => forall|version: u32, url: Seq<char>| #[trigger]
                has_pack(release, version, url) ==> (current matches Some(c) && version <= c),
        },
        forall|version: u32, url: Seq<char>| #[trigger]
            has_pack(release, version, url) ==> (offer(release, current) matches Some(u)
                ==> u.pack_version == version && u.download_url == url),
{
    if let Some(version) = tag_version(release.tag_name) {
        let at = lemma_asset(release.assets, asset_name(version));
        if let Some(url) = asset_url(release.assets, asset_name(version)) {
            assert(release.assets[at] == (asset_name(version), url));
            assert(has_pack(release, version, url));
        }
        assert forall|v: u32, url: Seq<char>| #[trigger] has_pack(release, v, url) implies v
            == version && asset_url(release.assets, asset_name(version)) == Some(url) by {
            let i = choose|i: int|
                0 <= i < release.assets.len() && #[trigger] release.assets[i] == (
                    "peach-rules-v"@ + dec(v as nat) + ".zip"@,
                    url,
                ) && forall|j: int|
                    0 <= j < i ==> (#[trigger] release.assets[j]).0 != "peach-rules-v"@ + dec(
                        v as nat,
                    ) + ".zip"@;
            assert(release.assets[i].0 == asset_name(version));
            if at < i {
                assert(release.assets[at].0 != asset_name(version));
            } else if i < at {
                assert(release.assets[i].0 != asset_name(version));
            }
        }
    }
}

/// The pack that is picked is one that a release has, newer than the current one, and no
/// release has one that is newer than both. Where none is picked, no release has a newer one.
pub proof fn lemma_picked_pack(
    releases: Seq<ReleaseView>,
    current: Option<u32>,
    picked: Option<UpdateView>,
)
    requires
        is_latest(releases, current, picked),
    ensures
        match picked {
            Some(u) => {
                &&& current matches Some(c) ==> u.pack_version > c
                &&& exists|k: int|
                    0 <= k < releases.len() && (#[trigger] releases[k]).tag_name == u.tag_name
                        && has_pack(releases[k], u.pack_version, u.download_url)
                &&& forall|i: int, version: u32, url: Seq<char>|
                    0 <= i < releases.len() && #[trigger] has_pack(releases[i], version, url)
                        ==> version <= u.pack_version
            },
            None => forall|i: int, version: u32, url: Seq<char>|
                0 <= i < releases.len() && #[trigger] has_pack(releases[i], version, url) ==> (
                current matches Some(c) && version <= c),
        },
{
    match picked {
        Some(u) => {
            let k = choose|k: int| #[trigger]
                best_offer(releases, current, releases.len() as int, k) && offer(
                    releases[k],
                    current,
                ) == Some(u);
            lemma_offer(releases[k], current);
            assert(releases[k].tag_name == u.tag_name);
            assert forall|i: int, version: u32, url: Seq<char>|
                0 <= i < releases.len() && #[trigger] has_pack(
                    releases[i],
                    version,
                    url,
                ) implies version <= u.pack_version by {
                lemma_offer(releases[i], current);
                assert(offer(releases[i], current) is Some ==> offer(
                    releases[i],
                    current,
                )->0.pack_version <= u.pack_version);
            }
        },
        None => {
            assert forall|i: int, version: u32, url: Seq<char>|
                0 <= i < releases.len() && #[trigger] has_pack(releases[i], version, url) implies (
            current matches Some(c) && version <= c) by {
                lemma_offer(releases[i], current);
                assert(offer(releases[i], current) is None);
            }
        },
    }
}

/// A release that is tagged with a version in decimal and has the file of that version has its
/// pack.
pub proof fn lemma_tagged_release(version: u32, url: Seq<char>)
    ensures
        has_pack(
            ReleaseView {
                tag_name: seq!['v'] + dec(version as nat),
                assets: seq![("peach-rules-v"@ + dec(version as nat) + ".zip"@, url)],
            },
            version,
            url,
        ),
{
    lemma_digits_of_number(version as nat);
    let tag = seq!['v'] + dec(version as nat);
    assert(tag.skip(1) =~= dec(version as nat));
    let name = "peach-rules-v"@ + dec(version as nat) + ".zip"@;
    let release = ReleaseView { tag_name: tag, assets: seq![(name, url)] };
    assert(release.assets[0] == (name, url));
    assert(has_pack(release, version, url));
}

/// Whether a file of a release is what an object says.
pub open spec fn is_asset_of(asset: (Seq<char>, Seq<char>), item: JsonView) -> bool {
    &&& item.get("name"@) == Some(JsonView::Text(asset.0))
    &&& item.get("browser_download_url"@) == Some(JsonView::Text(asset.1))
}

/// Whether a release is what an object says: its tag, and its files in their order.
pub open spec fn is_release_of(release: ReleaseView, item: JsonView) -> bool {
    &&& item.get("tag_name"@) == Some(JsonView::Text(release.tag_name))
    &&& match item.get("assets"@) {
        Some(JsonView::Array(items)) => items.len() == release.assets.len() && forall|i: int|
            0 <= i < items.len() && (#[trigger] items[i]) is Object ==> is_asset_of(
                release.assets[i],
                items[i],
            ),
        None => release.assets.len() == 0,
        _ => false,
    }
}

proof fn lemma_assets(items: Seq<JsonView>)
    ensures
        assets_in(items) matches Ok(assets) ==> assets.len() == items.len() && forall|i: int|
            0 <= i < items.len() && (#[trigger] items[i]) is Object ==> is_asset_of(
                assets[i],
                items[i],
            ),
    decreases items.len(),
{
    if items.len() > 0 {
        let front = items.drop_last();
        lemma_assets(front);
        if let Ok(assets) = assets_in(items) {
            assert forall|i: int|
                0 <= i < items.len() && (#[trigger] items[i]) is Object implies is_asset_of(
                assets[i],
                items[i],
            ) by {
                if i < items.len() - 1 {
                    assert(front[i] == items[i]);
                    assert(assets[i] == assets_in(front)->Ok_0[i]);
                } else {
                    assert(items[i] == items.last());
                    assert(asset_in(items.last()) == Ok::<_, Seq<char>>(assets[i]));
                }
            }
        }
    }
}

/// The releases of a list are read as it says, each with its tag and its files.
pub proof fn lemma_releases_are_read(items: Seq<JsonView>)
    ensures
        releases_in(items) matches Ok(releases) ==> releases.len() == items.len() && forall|i: int|
            0 <= i < items.len() && (#[trigger] items[i]) is Object ==> is_release_of(
                releases[i],
                items[i],
            ),
    decreases items.len(),
{
    if items.len() > 0 {
        let front = items.drop_last();
        lemma_releases_are_read(front);
        if let Ok(releases) = releases_in(items) {
            assert forall|i: int|
                0 <= i < items.len() && (#[trigger] items[i]) is Object implies is_release_of(
                releases[i],
                items[i],
            ) by {
                if i < items.len() - 1 {
                    assert(front[i] == items[i]);
                    assert(releases[i] == releases_in(front)->Ok_0[i]);
                } else {
                    assert(items[i] == items.last());
                    assert(release_in(items.last()) == Ok::<_, Seq<char>>(releases[i]));
                    if let Some(JsonView::Array(listed)) = items[i].get("assets"@) {
                        lemma_assets(listed);
                    }
                }
            }
        }
    }
}

} // verus!
