//! Campaign records and the per-campaign experience-point level table.
//!
//! The table maps character levels to the experience points required to
//! reach them.  It must stay consistent: a higher level always costs
//! strictly more experience than a lower one, and no two levels share a
//! cost.  It is kept as a vector of `(level, xp)` pairs strictly sorted by
//! level — and therefore, by the consistency rule, strictly sorted by xp
//! as well.
use vstd::prelude::*;

use crate::text::{dec_u, string_of_u64};

verus! {

/// One campaign's settings within a guild.
pub struct Campaign {
    pub guild_id: u64,
    pub campaign_name: String,
    pub xp_thresholds: CampaignLevels,
    pub allow_inventory: bool,
    pub allow_quests: bool,
    pub allow_characters: bool,
    pub monitor_inventory_chanid: Option<u64>,
    pub monitor_quests_chanid: Option<u64>,
    pub monitor_characters_chanid: Option<u64>,
}

impl Campaign {
    /// Bundle the settings of a campaign.
    pub fn new(
        guild_id: u64,
        campaign_name: String,
        xp_thresholds: CampaignLevels,
        allow_inventory: bool,
        allow_quests: bool,
        allow_characters: bool,
        monitor_inventory_chanid: Option<u64>,
        monitor_quests_chanid: Option<u64>,
        monitor_characters_chanid: Option<u64>,
    ) -> (c: Campaign)
        ensures
            c.guild_id == guild_id,
            c.campaign_name == campaign_name,
            c.xp_thresholds == xp_thresholds,
            c.allow_inventory == allow_inventory,
            c.allow_quests == allow_quests,
            c.allow_characters == allow_characters,
            c.monitor_inventory_chanid == monitor_inventory_chanid,
            c.monitor_quests_chanid == monitor_quests_chanid,
            c.monitor_characters_chanid == monitor_characters_chanid,
    {
        Campaign {
            guild_id,
            campaign_name,
            xp_thresholds,
            allow_inventory,
            allow_quests,
            allow_characters,
            monitor_inventory_chanid,
            monitor_quests_chanid,
            monitor_characters_chanid,
        }
    }
}

/// The experience thresholds of a campaign: which total of experience
/// points a character needs to reach each level.
pub struct CampaignLevels {
    inner: Vec<(u64, u64)>,
}

/// The standard 3.5-edition experience table, levels 1 through 20.
pub open spec fn standard_levels() -> Seq<(u64, u64)> {
    seq![
        (1u64, 0u64),
        (2u64, 1000u64),
        (3u64, 3000u64),
        (4u64, 6000u64),
        (5u64, 10000u64),
        (6u64, 15000u64),
        (7u64, 21000u64),
        (8u64, 28000u64),
        (9u64, 36000u64),
        (10u64, 45000u64),
        (11u64, 55000u64),
        (12u64, 66000u64),
        (13u64, 78000u64),
        (14u64, 91000u64),
        (15u64, 105000u64),
        (16u64, 120000u64),
        (17u64, 136000u64),
        (18u64, 153000u64),
        (19u64, 171000u64),
        (20u64, 190000u64),
    ]
}

impl CampaignLevels {
    /// The table's entries, in level order.
    pub closed spec fn entries(&self) -> Seq<(u64, u64)> {
        self.inner@
    }

    /// Both levels and experience requirements increase strictly along the
    /// table.
    pub open spec fn wf(&self) -> bool {
        forall|i: int, j: int|
            0 <= i < j < self.entries().len() ==> (#[trigger] self.entries()[i]).0 < (
            #[trigger] self.entries()[j]).0 && self.entries()[i].1 < self.entries()[j].1
    }

    /// Does the table hold this level?
    pub open spec fn spec_contains(&self, level: u64) -> bool {
        exists|i: int| 0 <= i < self.entries().len() && (#[trigger] self.entries()[i]).0 == level
    }

    /// The index of a level the table holds.
    pub open spec fn index_of(&self, level: u64) -> int {
        choose|i: int| 0 <= i < self.entries().len() && (#[trigger] self.entries()[i]).0 == level
    }

    /// The experience requirement stored for a level the table holds.
    pub open spec fn spec_xp(&self, level: u64) -> u64 {
        self.entries()[self.index_of(level)].1
    }

    /// May `(level, xp)` join the table?  It must cost more than every
    /// lower level and less than every higher one; an existing entry for
    /// the same level is overwritten, so its old cost does not matter.
    pub open spec fn fits(&self, level: u64, xp: u64) -> bool {
        forall|i: int|
            0 <= i < self.entries().len() ==> ((#[trigger] self.entries()[i]).0 < level ==> xp
                > self.entries()[i].1) && (self.entries()[i].0 > level ==> xp < self.entries()[i].1)
    }

    /// Keys the table holds are found with their stored requirement.
    pub proof fn lemma_found(&self, i: int)
        requires
            self.wf(),
            0 <= i < self.entries().len(),
        ensures
            self.spec_contains(self.entries()[i].0),
            self.index_of(self.entries()[i].0) == i,
            self.spec_xp(self.entries()[i].0) == self.entries()[i].1,
    {
        let level = self.entries()[i].0;
        assert(0 <= i < self.entries().len() && self.entries()[i].0 == level);
        let j = self.index_of(level);
        if j < i {
            assert(self.entries()[j].0 < self.entries()[i].0);
        }
        if j > i {
            assert(self.entries()[i].0 < self.entries()[j].0);
        }
    }

    /// The standard 3.5-edition table.
    pub fn new() -> (t: CampaignLevels)
        ensures
            t.entries() == standard_levels(),
            t.wf(),
    {
        let mut table: Vec<(u64, u64)> = Vec::new();
        table.push((1, 0));
        table.push((2, 1000));
        table.push((3, 3000));
        table.push((4, 6000));
        table.push((5, 10000));
        table.push((6, 15000));
        table.push((7, 21000));
        table.push((8, 28000));
        table.push((9, 36000));
        table.push((10, 45000));
        table.push((11, 55000));
        table.push((12, 66000));
        table.push((13, 78000));
        table.push((14, 91000));
        table.push((15, 105000));
        table.push((16, 120000));
        table.push((17, 136000));
        table.push((18, 153000));
        table.push((19, 171000));
        table.push((20, 190000));
        let t = CampaignLevels { inner: table };
        proof {
            assert(t.entries() =~= standard_levels());
        }
        t
    }

    /// An empty table.
    pub fn empty() -> (t: CampaignLevels)
        ensures
            t.entries().len() == 0,
            t.wf(),
    {
        CampaignLevels { inner: Vec::new() }
    }

    /// The index holding `level`, if any.
    fn find_level(&self, level: u64) -> (r: Option<usize>)
        ensures
            match r {
                Some(i) => i < self.entries().len() && self.entries()[i as int].0 == level,
                None => !self.spec_contains(level),
            },
    {
        let n = self.inner.len();
        let mut i: usize = 0;
        while i < n
            invariant
                0 <= i <= n,
                n == self.entries().len(),
                forall|j: int| 0 <= j < i ==> (#[trigger] self.entries()[j]).0 != level,
            decreases n - i,
        {
            if self.inner[i].0 == level {
                return Some(i);
            }
            i = i + 1;
        }
        None
    }

    /// The first index whose level is not below `level` (the insertion
    /// point in level order).
    fn lower_bound(&self, level: u64) -> (i: usize)
        requires
            self.wf(),
        ensures
            i <= self.entries().len(),
            forall|j: int| 0 <= j < i ==> (#[trigger] self.entries()[j]).0 < level,
            forall|j: int|
                i <= j < self.entries().len() ==> (#[trigger] self.entries()[j]).0 >= level,
    {
        let n = self.inner.len();
        let mut i: usize = 0;
        while i < n
            invariant
                0 <= i <= n,
                n == self.entries().len(),
                self.wf(),
                forall|j: int| 0 <= j < i ==> (#[trigger] self.entries()[j]).0 < level,
            decreases n - i,
        {
            if self.inner[i].0 >= level {
                proof {
                    assert(forall|j: int|
                        i <= j < self.entries().len() ==> (#[trigger] self.entries()[j]).0
                            >= self.entries()[i as int].0 || j == i);
                }
                return i;
            }
            i = i + 1;
        }
        n
    }

    /// Set the experience requirement of a level, adding it to the table
    /// if it was absent.  The entry must fit the table's order: more
    /// expensive than every lower level, cheaper than every higher one;
    /// otherwise nothing changes and the returned message explains which
    /// neighbouring entries it collides with.
    pub fn add_level(&mut self, level: u64, xp_required: u64) -> (r: Result<(), String>)
        requires
            old(self).wf(),
        ensures
            final(self).wf(),
            (r is Ok) <==> old(self).fits(level, xp_required),
            r is Ok ==> ({
                &&& final(self).spec_contains(level)
                &&& final(self).spec_xp(level) == xp_required
                &&& forall|k: u64|
                    k != level ==> (final(self).spec_contains(k) <==> old(self).spec_contains(k))
                &&& forall|k: u64|
                    k != level && old(self).spec_contains(k) ==> final(self).spec_xp(k) == old(
                        self,
                    ).spec_xp(k)
            }),
            r is Err ==> final(self).entries() == old(self).entries() && r->Err_0@ == old(
                self,
            ).add_err_msg(level, xp_required),
    {
        let ghost olds = *self;
        let valid = self.check_fits(level, xp_required);
        if !valid {
            let m = self.add_err_string(level, xp_required);
            return Err(m);
        }
        let i = self.lower_bound(level);
        let n = self.inner.len();
        let ghost pre = self.entries();
        if i < n && self.inner[i].0 == level {
            self.inner.remove(i);
            self.inner.insert(i, (level, xp_required));
            proof {
                assert(self.entries() =~= pre.update(i as int, (level, xp_required)));
                self.lemma_update_ok(olds, i as int, level, xp_required);
            }
        } else {
            self.inner.insert(i, (level, xp_required));
            proof {
                self.lemma_insert_ok(olds, i as int, level, xp_required);
            }
        }
        Ok(())
    }

    /// After overwriting the entry at `i` (which held `level`), the table
    /// is still ordered and reads as expected.
    proof fn lemma_update_ok(&self, olds: CampaignLevels, i: int, level: u64, xp: u64)
        requires
            olds.wf(),
            olds.fits(level, xp),
            0 <= i < olds.entries().len(),
            olds.entries()[i].0 == level,
            self.entries() == olds.entries().update(i, (level, xp)),
        ensures
            self.wf(),
            self.spec_contains(level),
            self.spec_xp(level) == xp,
            forall|k: u64| k != level ==> (self.spec_contains(k) <==> olds.spec_contains(k)),
            forall|k: u64|
                k != level && olds.spec_contains(k) ==> self.spec_xp(k) == olds.spec_xp(k),
    {
        let s = self.entries();
        let p = olds.entries();
        assert(s.len() == p.len());
        assert(forall|j: int| 0 <= j < s.len() && j != i ==> s[j] == p[j]);
        assert(s[i] == (level, xp));
        assert forall|a: int, b: int| 0 <= a < b < s.len() implies (#[trigger] s[a]).0 < (
        #[trigger] s[b]).0 && s[a].1 < s[b].1 by {
            assert(p[a].0 < p[b].0 && p[a].1 < p[b].1);
        }
        self.lemma_found(i);
        assert forall|k: u64| k != level implies (self.spec_contains(k) <==> olds.spec_contains(
            k,
        )) by {
            if self.spec_contains(k) {
                let j = choose|j: int| 0 <= j < s.len() && (#[trigger] s[j]).0 == k;
                assert(j != i);
                assert(p[j].0 == k);
            }
            if olds.spec_contains(k) {
                let j = choose|j: int| 0 <= j < p.len() && (#[trigger] p[j]).0 == k;
                assert(j != i);
                assert(s[j].0 == k);
            }
        }
        assert forall|k: u64| k != level && olds.spec_contains(k) implies self.spec_xp(k)
            == olds.spec_xp(k) by {
            let j = choose|j: int| 0 <= j < p.len() && (#[trigger] p[j]).0 == k;
            assert(j != i);
            assert(s[j].0 == k);
            self.lemma_found(j);
            olds.lemma_found(j);
        }
    }

    /// After inserting a fresh `(level, xp)` at the insertion point, the
    /// table is still ordered and reads as expected.
    proof fn lemma_insert_ok(&self, olds: CampaignLevels, i: int, level: u64, xp: u64)
        requires
            olds.wf(),
            olds.fits(level, xp),
            0 <= i <= olds.entries().len(),
            forall|j: int| 0 <= j < i ==> (#[trigger] olds.entries()[j]).0 < level,
            forall|j: int|
                i <= j < olds.entries().len() ==> (#[trigger] olds.entries()[j]).0 > level,
            self.entries() == olds.entries().insert(i, (level, xp)),
        ensures
            self.wf(),
            self.spec_contains(level),
            self.spec_xp(level) == xp,
            forall|k: u64| k != level ==> (self.spec_contains(k) <==> olds.spec_contains(k)),
            forall|k: u64|
                k != level && olds.spec_contains(k) ==> self.spec_xp(k) == olds.spec_xp(k),
    {
        let s = self.entries();
        let p = olds.entries();
        assert(s.len() == p.len() + 1);
        assert(forall|j: int| 0 <= j < i ==> s[j] == p[j]);
        assert(s[i] == (level, xp));
        assert(forall|j: int| i < j < s.len() ==> s[j] == p[j - 1]);
        assert forall|a: int, b: int| 0 <= a < b < s.len() implies (#[trigger] s[a]).0 < (
        #[trigger] s[b]).0 && s[a].1 < s[b].1 by {
            if a < i && b < i {
                assert(p[a].0 < p[b].0 && p[a].1 < p[b].1);
            } else if a < i && b == i {
                assert(p[a].0 < level);
                assert(olds.fits(level, xp));
                assert(xp > p[a].1);
            } else if a < i && b > i {
                assert(p[a].0 < p[b - 1].0 && p[a].1 < p[b - 1].1);
            } else if a == i {
                assert(p[b - 1].0 > level);
                assert(xp < p[b - 1].1);
            } else {
                assert(p[a - 1].0 < p[b - 1].0 && p[a - 1].1 < p[b - 1].1);
            }
        }
        self.lemma_found(i);
        assert forall|k: u64| k != level implies (self.spec_contains(k) <==> olds.spec_contains(
            k,
        )) by {
            if self.spec_contains(k) {
                let j = choose|j: int| 0 <= j < s.len() && (#[trigger] s[j]).0 == k;
                assert(j != i);
                if j < i {
                    assert(p[j].0 == k);
                } else {
                    assert(p[j - 1].0 == k);
                }
            }
            if olds.spec_contains(k) {
                let j = choose|j: int| 0 <= j < p.len() && (#[trigger] p[j]).0 == k;
                if j < i {
                    assert(s[j].0 == k);
                } else {
                    assert(s[j + 1].0 == k);
                }
            }
        }
        assert forall|k: u64| k != level && olds.spec_contains(k) implies self.spec_xp(k)
            == olds.spec_xp(k) by {
            let j = choose|j: int| 0 <= j < p.len() && (#[trigger] p[j]).0 == k;
            olds.lemma_found(j);
            if j < i {
                assert(s[j].0 == k);
                self.lemma_found(j);
            } else {
                assert(s[j + 1].0 == k);
                self.lemma_found(j + 1);
            }
        }
    }

    /// Check the table order rule for a prospective entry.
    fn check_fits(&self, level: u64, xp_required: u64) -> (r: bool)
        ensures
            r == self.fits(level, xp_required),
    {
        let n = self.inner.len();
        let mut i: usize = 0;
        while i < n
            invariant
                0 <= i <= n,
                n == self.entries().len(),
                forall|j: int|
                    0 <= j < i ==> ((#[trigger] self.entries()[j]).0 < level ==> xp_required
                        > self.entries()[j].1) && (self.entries()[j].0 > level ==> xp_required
                        < self.entries()[j].1),
            decreases n - i,
        {
            let (k, v) = self.inner[i];
            if k < level && !(xp_required > v) {
                return false;
            }
            if k > level && !(xp_required < v) {
                return false;
            }
            i = i + 1;
        }
        true
    }

    /// The message explaining why an entry does not fit: one line for the
    /// previous level's entry (if the table holds one), one for the next
    /// level's (if so), joined by a line break.
    pub open spec fn add_err_msg(&self, level: u64, xp: u64) -> Seq<char> {
        let has_l = level >= 1 && self.spec_contains((level - 1) as u64);
        let has_r = level < u64::MAX && self.spec_contains((level + 1) as u64);
        let lpart = if has_l {
            "XP for level "@ + dec_u(level as int) + " ("@ + dec_u(xp as int)
                + ") must be greater than the XP required for the previous level "@ + dec_u(
                level - 1,
            ) + " ("@ + dec_u(self.spec_xp((level - 1) as u64) as int) + ")."@
        } else {
            Seq::<char>::empty()
        };
        let sep = if has_l && has_r {
            "\n"@
        } else {
            Seq::<char>::empty()
        };
        let rpart = if has_r {
            "XP for level "@ + dec_u(level as int) + " ("@ + dec_u(xp as int)
                + ") must be less than the XP required for the next level "@ + dec_u(level + 1)
                + " ("@ + dec_u(self.spec_xp((level + 1) as u64) as int) + ")."@
        } else {
            Seq::<char>::empty()
        };
        lpart + sep + rpart
    }

    /// Build the rejection message for an entry that does not fit.
    fn add_err_string(&self, level: u64, xp_required: u64) -> (m: String)
        requires
            self.wf(),
        ensures
            m@ == self.add_err_msg(level, xp_required),
    {
        let mut sb = String::new();
        let left = if level >= 1 {
            self.find_level(level - 1)
        } else {
            None
        };
        let right = if level < u64::MAX {
            self.find_level(level + 1)
        } else {
            None
        };
        let ghost has_l = level >= 1 && self.spec_contains((level - 1) as u64);
        let ghost has_r = level < u64::MAX && self.spec_contains((level + 1) as u64);
        proof {
            if level >= 1 && left is Some {
                self.lemma_found(left->0 as int);
            }
            if level < u64::MAX && right is Some {
                self.lemma_found(right->0 as int);
            }
        }
        if let Some(li) = left {
            sb.append("XP for level ");
            let t1 = string_of_u64(level);
            sb.append(t1.as_str());
            sb.append(" (");
            let t2 = string_of_u64(xp_required);
            sb.append(t2.as_str());
            sb.append(") must be greater than the XP required for the previous level ");
            let t3 = string_of_u64(level - 1);
            sb.append(t3.as_str());
            sb.append(" (");
            let t4 = string_of_u64(self.inner[li].1);
            sb.append(t4.as_str());
            sb.append(").");
        }
        if left.is_some() && right.is_some() {
            sb.append("\n");
        }
        if let Some(ri) = right {
            sb.append("XP for level ");
            let t1 = string_of_u64(level);
            sb.append(t1.as_str());
            sb.append(" (");
            let t2 = string_of_u64(xp_required);
            sb.append(t2.as_str());
            sb.append(") must be less than the XP required for the next level ");
            let t3 = string_of_u64(level + 1);
            sb.append(t3.as_str());
            sb.append(" (");
            let t4 = string_of_u64(self.inner[ri].1);
            sb.append(t4.as_str());
            sb.append(").");
        }
        sb
    }

    /// Remove a level's entry, handing back the pair that was stored, or
    /// report that the level was absent.
    pub fn remove_level(&mut self, level: u64) -> (r: Result<(u64, u64), String>)
        requires
            old(self).wf(),
        ensures
            final(self).wf(),
            (r is Ok) <==> old(self).spec_contains(level),
            r is Ok ==> ({
                &&& r->Ok_0.0 == level
                &&& r->Ok_0.1 == old(self).spec_xp(level)
                &&& !final(self).spec_contains(level)
                &&& forall|k: u64|
                    k != level ==> (final(self).spec_contains(k) <==> old(self).spec_contains(k))
                &&& forall|k: u64|
                    k != level && old(self).spec_contains(k) ==> final(self).spec_xp(k) == old(
                        self,
                    ).spec_xp(k)
                &&& final(self).entries().len() == old(self).entries().len() - 1
            }),
            r is Err ==> final(self).entries() == old(self).entries() && r->Err_0@ == "Level "@
                + dec_u(level as int) + " was not in the table!"@,
    {
        let ghost olds = *self;
        match self.find_level(level) {
            None => {
                let mut m = String::from_str("Level ");
                let t = string_of_u64(level);
                m.append(t.as_str());
                m.append(" was not in the table!");
                Err(m)
            },
            Some(i) => {
                proof {
                    olds.lemma_found(i as int);
                }
                let e = self.inner.remove(i);
                proof {
                    self.lemma_remove_ok(olds, i as int, level);
                }
                Ok(e)
            },
        }
    }

    /// After removing the entry at `i` (which held `level`), the table is
    /// still ordered and the other entries read as before.
    proof fn lemma_remove_ok(&self, olds: CampaignLevels, i: int, level: u64)
        requires
            olds.wf(),
            0 <= i < olds.entries().len(),
            olds.entries()[i].0 == level,
            self.entries() == olds.entries().remove(i),
        ensures
            self.wf(),
            !self.spec_contains(level),
            forall|k: u64| k != level ==> (self.spec_contains(k) <==> olds.spec_contains(k)),
            forall|k: u64|
                k != level && olds.spec_contains(k) ==> self.spec_xp(k) == olds.spec_xp(k),
    {
        let s = self.entries();
        let p = olds.entries();
        assert(s.len() == p.len() - 1);
        assert(forall|j: int| 0 <= j < i ==> s[j] == p[j]);
        assert(forall|j: int| i <= j < s.len() ==> s[j] == p[j + 1]);
        assert forall|a: int, b: int| 0 <= a < b < s.len() implies (#[trigger] s[a]).0 < (
        #[trigger] s[b]).0 && s[a].1 < s[b].1 by {
            if b < i {
                assert(p[a].0 < p[b].0 && p[a].1 < p[b].1);
            } else if a < i {
                assert(p[a].0 < p[b + 1].0 && p[a].1 < p[b + 1].1);
            } else {
                assert(p[a + 1].0 < p[b + 1].0 && p[a + 1].1 < p[b + 1].1);
            }
        }
        assert forall|k: u64| self.spec_contains(k) implies k != level && olds.spec_contains(
            k,
        ) by {
            let j = choose|j: int| 0 <= j < s.len() && (#[trigger] s[j]).0 == k;
            if j < i {
                assert(p[j].0 == k);
                if k == level {
                    assert(p[j].0 < p[i].0);
                }
            } else {
                assert(p[j + 1].0 == k);
                if k == level {
                    assert(p[i].0 < p[j + 1].0);
                }
            }
        }
        assert forall|k: u64| k != level && olds.spec_contains(k) implies self.spec_contains(
            k,
        ) by {
            let j = choose|j: int| 0 <= j < p.len() && (#[trigger] p[j]).0 == k;
            assert(j != i);
            if j < i {
                assert(s[j].0 == k);
            } else {
                assert(s[j - 1].0 == k);
            }
        }
        assert forall|k: u64| k != level && olds.spec_contains(k) implies self.spec_xp(k)
            == olds.spec_xp(k) by {
            let j = choose|j: int| 0 <= j < p.len() && (#[trigger] p[j]).0 == k;
            olds.lemma_found(j);
            assert(j != i);
            if j < i {
                assert(s[j].0 == k);
                self.lemma_found(j);
            } else {
                assert(s[j - 1].0 == k);
                self.lemma_found(j - 1);
            }
        }
    }

    /// The experience needed to reach a level, or `None` if the table does
    /// not hold that level.
    pub fn xp_from_level(&self, level: u64) -> (r: Option<&u64>)
        requires
            self.wf(),
        ensures
            (r is Some) <==> self.spec_contains(level),
            r is Some ==> *r->0 == self.spec_xp(level),
    {
        match self.find_level(level) {
            Some(i) => {
                proof {
                    self.lemma_found(i as int);
                }
                Some(&self.inner[i].1)
            },
            None => None,
        }
    }

    /// The level a total of experience points corresponds to: the highest
    /// level whose requirement it meets, level 1 when it meets none, and
    /// `None` only for an empty table.
    pub fn level_from_xp(&self, xp: u64) -> (r: Option<u64>)
        requires
            self.wf(),
        ensures
            (r is Some) <==> self.entries().len() > 0,
            r is Some ==> ({
                let l = r->0;
                if exists|i: int|
                    0 <= i < self.entries().len() && (#[trigger] self.entries()[i]).1 <= xp {
                    exists|i: int|
                        {
                            &&& 0 <= i < self.entries().len()
                            &&& (#[trigger] self.entries()[i]).1 <= xp
                            &&& l == self.entries()[i].0
                            &&& forall|j: int|
                                0 <= j < self.entries().len() && (#[trigger] self.entries()[j]).1
                                    <= xp ==> self.entries()[j].0 <= l
                        }
                } else {
                    l == 1
                }
            }),
    {
        let n = self.inner.len();
        if n == 0 {
            return None;
        }
        let mut level: u64 = 1;
        let mut i: usize = 0;
        let mut done = false;
        while i < n && !done
            invariant
                0 <= i <= n,
                n == self.entries().len(),
                self.wf(),
                forall|j: int| 0 <= j < i ==> (#[trigger] self.entries()[j]).1 <= xp,
                i == 0 ==> level == 1,
                i > 0 ==> level == self.entries()[i - 1].0,
                done ==> i < n && self.entries()[i as int].1 > xp,
            decreases n - i, (if done { 0int } else { 1int }),
        {
            let (k, v) = self.inner[i];
            if v <= xp {
                level = k;
                i = i + 1;
            } else {
                done = true;
            }
        }
        proof {
            let s = self.entries();
            if i == 0 {
                assert(s[0].1 > xp);
                assert forall|j: int| !(0 <= j < s.len() && (#[trigger] s[j]).1 <= xp) by {
                    if 0 < j < s.len() {
                        assert(s[0].1 < s[j].1);
                    }
                }
            } else {
                assert(s[i - 1].1 <= xp);
                assert forall|j: int| 0 <= j < s.len() && (#[trigger] s[j]).1 <= xp implies s[j].0
                    <= level by {
                    if j > i - 1 {
                        assert(s[i - 1].1 < s[j].1);
                        if done {
                            if j > i {
                                assert(s[i as int].1 < s[j].1);
                            }
                            assert(false);
                        } else {
                            assert(i == n);
                            assert(false);
                        }
                    } else if j < i - 1 {
                        assert(s[j].0 < s[i - 1].0);
                    }
                }
            }
        }
        Some(level)
    }
}

} // verus!
