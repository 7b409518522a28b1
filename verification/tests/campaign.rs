use archmage::campaign::CampaignLevels;

#[test]
fn test_campaign_levels_edit_level() {
    let mut levels = CampaignLevels::empty();

    // Assert can add and change valid entries.
    assert_eq!(levels.add_level(1, 0).is_ok(), true);
    assert_eq!(levels.xp_from_level(1), Some(&(0 as u64)));

    assert_eq!(levels.add_level(1, 50).is_ok(), true);
    assert_eq!(levels.xp_from_level(1), Some(&(50 as u64)));

    // Assert does not allow higher level w/ lower XP.
    assert_eq!(levels.add_level(2, 0).is_err(), true);
    assert_eq!(levels.xp_from_level(2), None);
    assert_eq!(levels.add_level(2, 100).is_ok(), true);
    assert_eq!(levels.xp_from_level(2), Some(&(100 as u64)));

    // Assert setting existing entry to invalid state fails.
    assert_eq!(levels.add_level(1, 150).is_err(), true);
    // And old value is unchanged.
    assert_eq!(levels.xp_from_level(1), Some(&(50 as u64)));

    // Assert setting existing entry to new but valid state succeeds.
    assert_eq!(levels.add_level(1, 25).is_ok(), true);
    assert_eq!(levels.xp_from_level(1), Some(&(25 as u64)));

    // Assert deletion works
    assert_eq!(levels.remove_level(2).is_ok(), true);
    assert_eq!(levels.xp_from_level(2), None);
}

#[test]
fn test_xp_conversion() {
    let mut levels = CampaignLevels::new();

    assert_eq!(levels.xp_from_level(1), Some(&(0 as u64)));
    assert_eq!(levels.level_from_xp(0), Some(1 as u64));
    assert_eq!(levels.xp_from_level(2), Some(&(1000 as u64)));
    assert_eq!(levels.level_from_xp(1000), Some(2 as u64));
    assert_eq!(levels.xp_from_level(3), Some(&(3000 as u64)));
    assert_eq!(levels.level_from_xp(3000), Some(3 as u64));
    assert_eq!(levels.xp_from_level(4), Some(&(6000 as u64)));
    assert_eq!(levels.level_from_xp(6000), Some(4 as u64));
    assert_eq!(levels.xp_from_level(5), Some(&(10000 as u64)));
    assert_eq!(levels.level_from_xp(10000), Some(5 as u64));
    assert_eq!(levels.xp_from_level(6), Some(&(15000 as u64)));
    assert_eq!(levels.level_from_xp(15000), Some(6 as u64));
    assert_eq!(levels.xp_from_level(7), Some(&(21000 as u64)));
    assert_eq!(levels.level_from_xp(21000), Some(7 as u64));
    assert_eq!(levels.xp_from_level(8), Some(&(28000 as u64)));
    assert_eq!(levels.level_from_xp(28000), Some(8 as u64));
    assert_eq!(levels.xp_from_level(9), Some(&(36000 as u64)));
    assert_eq!(levels.level_from_xp(36000), Some(9 as u64));
    assert_eq!(levels.xp_from_level(10), Some(&(45000 as u64)));
    assert_eq!(levels.level_from_xp(45000), Some(10 as u64));
    assert_eq!(levels.xp_from_level(11), Some(&(55000 as u64)));
    assert_eq!(levels.level_from_xp(55000), Some(11 as u64));
    assert_eq!(levels.xp_from_level(12), Some(&(66000 as u64)));
    assert_eq!(levels.level_from_xp(66000), Some(12 as u64));
    assert_eq!(levels.xp_from_level(13), Some(&(78000 as u64)));
    assert_eq!(levels.level_from_xp(78000), Some(13 as u64));
    assert_eq!(levels.xp_from_level(14), Some(&(91000 as u64)));
    assert_eq!(levels.level_from_xp(91000), Some(14 as u64));
    assert_eq!(levels.xp_from_level(15), Some(&(105000 as u64)));
    assert_eq!(levels.level_from_xp(105000), Some(15 as u64));
    assert_eq!(levels.xp_from_level(16), Some(&(120000 as u64)));
    assert_eq!(levels.level_from_xp(120000), Some(16 as u64));
    assert_eq!(levels.xp_from_level(17), Some(&(136000 as u64)));
    assert_eq!(levels.level_from_xp(136000), Some(17 as u64));
    assert_eq!(levels.xp_from_level(18), Some(&(153000 as u64)));
    assert_eq!(levels.level_from_xp(153000), Some(18 as u64));
    assert_eq!(levels.xp_from_level(19), Some(&(171000 as u64)));
    assert_eq!(levels.level_from_xp(171000), Some(19 as u64));
    assert_eq!(levels.xp_from_level(20), Some(&(190000 as u64)));
    assert_eq!(levels.level_from_xp(190000), Some(20 as u64));
}

#[test]
fn level_lookup_before_first_entry_is_level_one() {
    // a table that starts above level 1 still reports level 1 for small
    // totals, as the scan's starting value
    let mut levels = CampaignLevels::empty();
    assert_eq!(levels.add_level(5, 100).is_ok(), true);
    assert_eq!(levels.level_from_xp(50), Some(1));
    assert_eq!(levels.level_from_xp(100), Some(5));
    assert_eq!(levels.level_from_xp(u64::MAX), Some(5));
}

#[test]
fn level_lookup_on_empty_table_is_none() {
    let levels = CampaignLevels::empty();
    assert_eq!(levels.level_from_xp(0), None);
}

#[test]
fn add_level_rejection_names_both_neighbours() {
    let mut levels = CampaignLevels::empty();
    assert_eq!(levels.add_level(1, 50).is_ok(), true);
    assert_eq!(levels.add_level(3, 200).is_ok(), true);

    // the rejection names every neighbouring entry the table holds,
    // whichever side the collision is on
    let err = levels.add_level(2, 40).unwrap_err();
    assert_eq!(
        err,
        "XP for level 2 (40) must be greater than the XP required for the previous level 1 (50)."
            .to_string()
            + "\nXP for level 2 (40) must be less than the XP required for the next level 3 (200)."
    );

    let err = levels.add_level(2, 300).unwrap_err();
    assert_eq!(
        err,
        "XP for level 2 (300) must be greater than the XP required for the previous level 1 (50)."
            .to_string()
            + "\nXP for level 2 (300) must be less than the XP required for the next level 3 (200)."
    );

    let mut contiguous = CampaignLevels::empty();
    assert_eq!(contiguous.add_level(1, 50).is_ok(), true);
    assert_eq!(contiguous.add_level(2, 100).is_ok(), true);
    assert_eq!(contiguous.add_level(3, 200).is_ok(), true);
    let err = contiguous.remove_level(2).unwrap();
    assert_eq!(err, (2, 100));
    assert_eq!(contiguous.add_level(2, 100).is_ok(), true);
}

#[test]
fn remove_level_reports_missing_level() {
    let mut levels = CampaignLevels::empty();
    assert_eq!(levels.remove_level(3).unwrap_err(), "Level 3 was not in the table!");
}
