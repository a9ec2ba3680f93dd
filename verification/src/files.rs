use vstd::prelude::*;
use vstd::string::*;

use crate::strings::str_eq;
use crate::Error;

verus! {

/// The configuration defaults built into the tool, handed in as name/content
/// pairs.
pub struct EmbeddedAssets {
    pub entries: Vec<(String, Vec<u8>)>,
}

/// First content stored under a name.
pub open spec fn asset_lookup(
    entries: Seq<(Seq<char>, Seq<u8>)>,
    name: Seq<char>,
) -> Option<Seq<u8>>
    decreases entries.len(),
{
    if entries.len() == 0 {
        None
    } else if entries[0].0 == name {
        Some(entries[0].1)
    } else {
        asset_lookup(entries.skip(1), name)
    }
}

fn clone_bytes(v: &Vec<u8>) -> (r: Vec<u8>)
    ensures
        r@ == v@,
{
    let mut r: Vec<u8> = Vec::new();
    let mut i: usize = 0;
    while i < v.len()
        invariant
            i <= v.len(),
            r@.len() == i,
            forall|k: int| 0 <= k < i ==> r@[k] == v@[k],
        decreases v.len() - i,
    {
        r.push(v[i]);
        i += 1;
    }
    proof {
        assert(r@ =~= v@);
    }
    r
}

/// The embedded default of the given name, or an
/// [`Error::GetWrongEmbeddedFile`] naming it.
pub fn get_config(assets: &EmbeddedAssets, path: &str) -> (r: Result<Vec<u8>, Error>)
    ensures
        match r {
            Ok(d) => asset_lookup(assets.entries.deep_view(), path@) == Some(d@),
            Err(e) => asset_lookup(assets.entries.deep_view(), path@) is None && (e matches
                Error::GetWrongEmbeddedFile(n) && n@ == path@),
        },
{
    let ghost av = assets.entries.deep_view();
    let mut i: usize = 0;
    proof {
        assert(av.skip(0) =~= av);
    }
    while i < assets.entries.len()
        invariant
            i <= assets.entries.len(),
            av == assets.entries.deep_view(),
            asset_lookup(av, path@) == asset_lookup(av.skip(i as int), path@),
        decreases assets.entries.len() - i,
    {
        proof {
            assert(av.skip(i as int)[0] == av[i as int]);
            assert(av.skip(i as int).skip(1) =~= av.skip(i as int + 1));
        }
        if str_eq(assets.entries[i].0.as_str(), path) {
            let d = clone_bytes(&assets.entries[i].1);
            proof {
                assert(d@ =~= av[i as int].1);
            }
            return Ok(d);
        }
        i += 1;
    }
    proof {
        assert(av.skip(i as int).len() == 0);
    }
    Err(Error::GetWrongEmbeddedFile(String::from_str(path)))
}

/// Where a configuration file that may already be installed comes from: it is
/// left alone when present, copied from the system-wide directory when one is
/// there, and written from the embedded default otherwise.
pub enum InstallSource {
    AlreadyInstalled,
    CopyFromEtc,
    WriteEmbedded,
}

/// The decision behind installing one configuration file.
pub fn install_config_source(config_present: bool, etc_present: bool) -> (r: InstallSource)
    ensures
        config_present ==> r is AlreadyInstalled,
        !config_present && etc_present ==> r is CopyFromEtc,
        !config_present && !etc_present ==> r is WriteEmbedded,
{
    if config_present {
        InstallSource::AlreadyInstalled
    } else if etc_present {
        InstallSource::CopyFromEtc
    } else {
        InstallSource::WriteEmbedded
    }
}

} // verus!
