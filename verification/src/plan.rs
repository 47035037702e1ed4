//! What a download run does with the install it finds: skip it, patch from it, or start
//! afresh.
use vstd::prelude::*;

use crate::index::same_chars;
use crate::text::chars_of;
use crate::version::{parse_version, version_error, GameVersion, Version, VersionError, VersionModel};

verus! {

/// What a download run does.
#[derive(Debug)]
pub enum DownloadPlan {
    /// The install already holds the target version.
    Skip,
    /// Download the target version's files in full.
    Fresh,
    /// Patch the installed version, which this holds, up to the target.
    FromCache(GameVersion),
}

pub ghost enum PlanModel {
    Skip,
    Fresh,
    FromCache(VersionModel),
}

impl View for DownloadPlan {
    type V = PlanModel;

    open spec fn view(&self) -> PlanModel {
        match self {
            DownloadPlan::Skip => PlanModel::Skip,
            DownloadPlan::Fresh => PlanModel::Fresh,
            DownloadPlan::FromCache(v) => PlanModel::FromCache(v@),
        }
    }
}

/// The version to download: the one asked for, or else the repository's latest.
pub open spec fn target_spec(requested: Option<Seq<char>>, latest: VersionModel) -> Result<VersionModel, VersionError> {
    match requested {
        None => Ok(latest),
        Some(t) => match parse_version(t) {
            Some(v) => Ok(v),
            None => Err(version_error(t)),
        },
    }
}

/// The plan for an install that records `cached` (its slug, empty if none was recorded, and
/// its version): skip when it already holds `target` of `slug`; patch from it when it holds
/// another version of the same repository than the epoch and the file filter has not been
/// widened to files it left out; else download afresh.
pub open spec fn plan_spec(
    cached: Option<(Seq<char>, VersionModel)>,
    slug: Seq<char>,
    target: VersionModel,
    filter_invalidated: bool,
) -> PlanModel {
    match cached {
        None => PlanModel::Fresh,
        Some((recorded, version)) => {
            let cached_slug = if recorded.len() == 0 {
                slug
            } else {
                recorded
            };
            if cached_slug == slug && version == target {
                PlanModel::Skip
            } else if version != Version::epoch_model() && cached_slug == slug && !filter_invalidated {
                PlanModel::FromCache(version)
            } else {
                PlanModel::Fresh
            }
        },
    }
}

/// The version to download.
pub fn target_version(requested: Option<&str>, latest: &GameVersion) -> (r: Result<GameVersion, VersionError>)
    ensures
        match r {
            Ok(v) => target_spec(
                match requested {
                    Some(t) => Some(t@),
                    None => None,
                },
                latest@,
            ) == Ok::<VersionModel, VersionError>(v@),
            Err(e) => target_spec(
                match requested {
                    Some(t) => Some(t@),
                    None => None,
                },
                latest@,
            ) == Err::<VersionModel, VersionError>(e),
        },
{
    match requested {
        None => Ok(latest.duplicate()),
        Some(t) => GameVersion::new(t),
    }
}

/// Decide what a download run does, given what the install records.
pub fn plan_download(cached: Option<(&str, &GameVersion)>, slug: &str, target: &GameVersion, filter_invalidated: bool) -> (r: DownloadPlan)
    ensures
        r@ == plan_spec(
            match cached {
                Some((s, v)) => Some((s@, v@)),
                None => None,
            },
            slug@,
            target@,
            filter_invalidated,
        ),
{
    match cached {
        None => DownloadPlan::Fresh,
        Some((recorded, version)) => {
            let wanted = chars_of(slug);
            let recorded_chars = chars_of(recorded);
            let same_slug = recorded_chars.len() == 0 || same_chars(&recorded_chars, &wanted);
            if same_slug && *version == *target {
                DownloadPlan::Skip
            } else if !(*version == GameVersion::epoch()) && same_slug && !filter_invalidated {
                DownloadPlan::FromCache(version.duplicate())
            } else {
                DownloadPlan::Fresh
            }
        },
    }
}

impl DownloadPlan {
    /// Whether the run writes anything: every plan but a skip does.
    pub fn updates(&self) -> (b: bool)
        ensures
            b == !(self@ is Skip),
    {
        match self {
            DownloadPlan::Skip => false,
            _ => true,
        }
    }
}

} // verus!
