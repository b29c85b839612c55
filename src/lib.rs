pub mod domain;
pub mod strategy;

use vstd::prelude::*;
use domain::{Teams, TeamsCreationSetting, TeamsCreationSettingError};
use strategy::ShuffleStrategies;

verus! {

/// Forms teams from `setting`, shuffling at random.
pub fn run(setting: TeamsCreationSetting) -> (r: Result<Teams, TeamsCreationSettingError>)
    ensures
        Teams::created(setting, ShuffleStrategies::RandomShuffle, r),
{
    Teams::create(setting, &ShuffleStrategies::RandomShuffle)
}

} // verus!
