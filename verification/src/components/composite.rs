//! Composite organisms: a leader entity with member cells in specialised roles.
use vstd::prelude::*;

verus! {

/// Role a member cell plays within a composite organism.
#[derive(Debug, Clone, Copy, PartialEq, Eq, Hash, Structural)]
pub enum CellRole {
    /// Contributes to composite movement speed.
    Locomotion,
    /// Extends composite sensor range.
    Sensing,
    /// Increases composite attack force.
    Attack,
    /// Increases composite health/damage resistance.
    Defense,
    /// Improves composite feeding efficiency.
    Digestion,
    /// Improves composite reproduction capability.
    Reproduction,
    /// No specialization; contributes a small amount to everything.
    Undifferentiated,
}

/// Information about a single member within a composite organism.
#[derive(Debug, Clone, Copy, PartialEq, Eq, Structural)]
pub struct CompositeMember {
    /// The entity ID bits of this member.
    pub entity_id: u64,
    /// The role this member plays.
    pub role: CellRole,
}

/// Component attached to the composite leader entity; tracks the members.
#[derive(Debug, Clone)]
pub struct CompositeBody {
    /// Member entities and their assigned roles.
    pub members: Vec<CompositeMember>,
    /// Entity ID bits of the leader.
    pub leader_id: u64,
    /// Tick when the composite was formed.
    pub formed_tick: u64,
}

/// Whether some member has the given entity ID.
pub open spec fn has_member_spec(members: Seq<CompositeMember>, entity_id: u64) -> bool {
    exists|i: int| 0 <= i < members.len() && members[i].entity_id == entity_id
}

/// Index of the first member with the given entity ID.
pub open spec fn first_member_index(members: Seq<CompositeMember>, entity_id: u64) -> int {
    choose|i: int|
        0 <= i < members.len() && members[i].entity_id == entity_id && forall|j: int|
            0 <= j < i ==> members[j].entity_id != entity_id
}

proof fn lemma_first_member_index(members: Seq<CompositeMember>, entity_id: u64, p: int)
    requires
        0 <= p < members.len(),
        members[p].entity_id == entity_id,
        forall|j: int| 0 <= j < p ==> members[j].entity_id != entity_id,
    ensures
        first_member_index(members, entity_id) == p,
{
    let c = first_member_index(members, entity_id);
    if c < p {
        assert(members[c].entity_id != entity_id);
    } else if c > p {
        assert(members[p].entity_id != entity_id);
    }
}

impl CompositeBody {
    /// Create a new composite body with no members.
    pub fn new(leader_id: u64, formed_tick: u64) -> (body: Self)
        ensures
            body.members@ == Seq::<CompositeMember>::empty(),
            body.leader_id == leader_id,
            body.formed_tick == formed_tick,
    {
        CompositeBody { members: Vec::new(), leader_id, formed_tick }
    }

    /// Number of members (excluding the leader).
    pub fn member_count(&self) -> (n: usize)
        ensures
            n == self.members@.len(),
    {
        self.members.len()
    }

    /// Total size of the composite (leader + members).
    pub fn total_size(&self) -> (n: usize)
        requires
            self.members@.len() < usize::MAX,
        ensures
            n == self.members@.len() + 1,
    {
        1 + self.members.len()
    }

    /// Add a member with the given role.
    pub fn add_member(&mut self, entity_id: u64, role: CellRole)
        ensures
            final(self).members@ == old(self).members@.push(CompositeMember { entity_id, role }),
            final(self).leader_id == old(self).leader_id,
            final(self).formed_tick == old(self).formed_tick,
    {
        self.members.push(CompositeMember { entity_id, role });
    }

    /// Remove the first member with the given entity ID, returning it if found.
    pub fn remove_member(&mut self, entity_id: u64) -> (removed: Option<CompositeMember>)
        ensures
            final(self).leader_id == old(self).leader_id,
            final(self).formed_tick == old(self).formed_tick,
            has_member_spec(old(self).members@, entity_id) ==> {
                let p = first_member_index(old(self).members@, entity_id);
                &&& removed == Some(old(self).members@[p])
                &&& final(self).members@ == old(self).members@.remove(p)
            },
            !has_member_spec(old(self).members@, entity_id) ==> {
                &&& removed is None
                &&& final(self).members@ == old(self).members@
            },
    {
        let mut i: usize = 0;
        while i < self.members.len()
            invariant
                i <= self.members@.len(),
                self.members@ == old(self).members@,
                self.leader_id == old(self).leader_id,
                self.formed_tick == old(self).formed_tick,
                forall|j: int| 0 <= j < i ==> self.members@[j].entity_id != entity_id,
            decreases self.members@.len() - i,
        {
            if self.members[i].entity_id == entity_id {
                proof {
                    lemma_first_member_index(self.members@, entity_id, i as int);
                }
                let m = self.members.remove(i);
                return Some(m);
            }
            i = i + 1;
        }
        None
    }

    /// Check if a specific entity is a member.
    pub fn has_member(&self, entity_id: u64) -> (r: bool)
        ensures
            r == has_member_spec(self.members@, entity_id),
    {
        let mut i: usize = 0;
        while i < self.members.len()
            invariant
                i <= self.members@.len(),
                forall|j: int| 0 <= j < i ==> self.members@[j].entity_id != entity_id,
            decreases self.members@.len() - i,
        {
            if self.members[i].entity_id == entity_id {
                return true;
            }
            i = i + 1;
        }
        false
    }
}

/// Marker component attached to entities that are members of a composite.
#[derive(Debug, Clone, Copy, PartialEq, Eq, Structural)]
pub struct CompositeMemberMarker {
    /// Entity ID bits of the composite leader this member belongs to.
    pub leader_id: u64,
}

/// How many members of each role a composite should have.
#[derive(Debug, Clone, Copy, PartialEq, Eq, Structural)]
pub struct CompositionPattern {
    /// Target count for Sensing role members.
    pub sensing_count: u8,
    /// Target count for Locomotion role members.
    pub locomotion_count: u8,
    /// Target count for Attack role members.
    pub attack_count: u8,
    /// Target count for Defense role members.
    pub defense_count: u8,
    /// Target count for Digestion role members.
    pub digestion_count: u8,
    /// Target count for Reproduction role members.
    pub reproduction_count: u8,
}

impl Default for CompositionPattern {
    /// One each of Sensing, Locomotion, Attack and Defense.
    fn default() -> (p: Self)
        ensures
            p == (CompositionPattern {
                sensing_count: 1,
                locomotion_count: 1,
                attack_count: 1,
                defense_count: 1,
                digestion_count: 0,
                reproduction_count: 0,
            }),
    {
        CompositionPattern {
            sensing_count: 1,
            locomotion_count: 1,
            attack_count: 1,
            defense_count: 1,
            digestion_count: 0,
            reproduction_count: 0,
        }
    }
}

/// The number of times `role` occurs in `roles`.
pub open spec fn role_count(roles: Seq<CellRole>, role: CellRole) -> nat
    decreases roles.len(),
{
    if roles.len() == 0 {
        0
    } else {
        role_count(roles.drop_last(), role) + (if roles.last() == role {
            1nat
        } else {
            0nat
        })
    }
}

/// The roles of a list of members.
pub open spec fn roles_of(members: Seq<CompositeMember>) -> Seq<CellRole> {
    members.map_values(|m: CompositeMember| m.role)
}

/// Sum of the target counts of a pattern.
pub open spec fn pattern_slots(p: CompositionPattern) -> nat {
    (p.sensing_count + p.locomotion_count + p.attack_count + p.defense_count + p.digestion_count
        + p.reproduction_count) as nat
}

/// The flat role list of a pattern: Sensing, Locomotion, Attack, Defense,
/// Digestion, Reproduction, each repeated its target count.
pub open spec fn pattern_roles(p: CompositionPattern) -> Seq<CellRole> {
    Seq::new(p.sensing_count as nat, |i: int| CellRole::Sensing) + Seq::new(
        p.locomotion_count as nat,
        |i: int| CellRole::Locomotion,
    ) + Seq::new(p.attack_count as nat, |i: int| CellRole::Attack) + Seq::new(
        p.defense_count as nat,
        |i: int| CellRole::Defense,
    ) + Seq::new(p.digestion_count as nat, |i: int| CellRole::Digestion) + Seq::new(
        p.reproduction_count as nat,
        |i: int| CellRole::Reproduction,
    )
}

/// Append `n` copies of `role`.
fn push_role_times(roles: &mut Vec<CellRole>, role: CellRole, n: u8)
    ensures
        final(roles)@ == old(roles)@ + Seq::new(n as nat, |i: int| role),
{
    let mut k: u8 = 0;
    while k < n
        invariant
            k <= n,
            roles@ == old(roles)@ + Seq::new(k as nat, |i: int| role),
        decreases n - k,
    {
        roles.push(role);
        k = k + 1;
        assert(roles@ =~= old(roles)@ + Seq::new(k as nat, |i: int| role));
    }
}

impl CompositionPattern {
    /// Total number of member slots (excluding the leader).
    pub fn total_member_slots(&self) -> (n: u8)
        requires
            pattern_slots(*self) <= u8::MAX,
        ensures
            n == pattern_slots(*self),
    {
        self.sensing_count + self.locomotion_count + self.attack_count + self.defense_count
            + self.digestion_count + self.reproduction_count
    }

    /// The roles as a flat list, in the order Sensing, Locomotion, Attack,
    /// Defense, Digestion, Reproduction.
    pub fn member_roles(&self) -> (roles: Vec<CellRole>)
        ensures
            roles@ == pattern_roles(*self),
    {
        let mut roles: Vec<CellRole> = Vec::new();
        push_role_times(&mut roles, CellRole::Sensing, self.sensing_count);
        push_role_times(&mut roles, CellRole::Locomotion, self.locomotion_count);
        push_role_times(&mut roles, CellRole::Attack, self.attack_count);
        push_role_times(&mut roles, CellRole::Defense, self.defense_count);
        push_role_times(&mut roles, CellRole::Digestion, self.digestion_count);
        push_role_times(&mut roles, CellRole::Reproduction, self.reproduction_count);
        assert(roles@ =~= pattern_roles(*self));
        roles
    }

    /// Build a pattern from a list of members by counting roles;
    /// Undifferentiated members are not counted. No role may occur more than
    /// 255 times.
    pub fn from_members(members: &[CompositeMember]) -> (p: Self)
        requires
            role_count(roles_of(members@), CellRole::Sensing) <= u8::MAX,
            role_count(roles_of(members@), CellRole::Locomotion) <= u8::MAX,
            role_count(roles_of(members@), CellRole::Attack) <= u8::MAX,
            role_count(roles_of(members@), CellRole::Defense) <= u8::MAX,
            role_count(roles_of(members@), CellRole::Digestion) <= u8::MAX,
            role_count(roles_of(members@), CellRole::Reproduction) <= u8::MAX,
        ensures
            p.sensing_count == role_count(roles_of(members@), CellRole::Sensing),
            p.locomotion_count == role_count(roles_of(members@), CellRole::Locomotion),
            p.attack_count == role_count(roles_of(members@), CellRole::Attack),
            p.defense_count == role_count(roles_of(members@), CellRole::Defense),
            p.digestion_count == role_count(roles_of(members@), CellRole::Digestion),
            p.reproduction_count == role_count(roles_of(members@), CellRole::Reproduction),
    {
        let mut pattern = CompositionPattern {
            sensing_count: 0,
            locomotion_count: 0,
            attack_count: 0,
            defense_count: 0,
            digestion_count: 0,
            reproduction_count: 0,
        };
        let n = members.len();
        for i in 0..n
            invariant
                n == members@.len(),
                role_count(roles_of(members@), CellRole::Sensing) <= u8::MAX,
                role_count(roles_of(members@), CellRole::Locomotion) <= u8::MAX,
                role_count(roles_of(members@), CellRole::Attack) <= u8::MAX,
                role_count(roles_of(members@), CellRole::Defense) <= u8::MAX,
                role_count(roles_of(members@), CellRole::Digestion) <= u8::MAX,
                role_count(roles_of(members@), CellRole::Reproduction) <= u8::MAX,
                pattern.sensing_count == role_count(roles_of(members@.take(i as int)), CellRole::Sensing),
                pattern.locomotion_count == role_count(
                    roles_of(members@.take(i as int)),
                    CellRole::Locomotion,
                ),
                pattern.attack_count == role_count(roles_of(members@.take(i as int)), CellRole::Attack),
                pattern.defense_count == role_count(roles_of(members@.take(i as int)), CellRole::Defense),
                pattern.digestion_count == role_count(
                    roles_of(members@.take(i as int)),
                    CellRole::Digestion,
                ),
                pattern.reproduction_count == role_count(
                    roles_of(members@.take(i as int)),
                    CellRole::Reproduction,
                ),
        {
            proof {
                assert(roles_of(members@.take(i + 1)).drop_last() =~= roles_of(members@.take(i as int)));
                assert(roles_of(members@.take(i + 1)).last() == members@[i as int].role);
                lemma_role_count_prefix(roles_of(members@), i + 1, CellRole::Sensing);
                lemma_role_count_prefix(roles_of(members@), i + 1, CellRole::Locomotion);
                lemma_role_count_prefix(roles_of(members@), i + 1, CellRole::Attack);
                lemma_role_count_prefix(roles_of(members@), i + 1, CellRole::Defense);
                lemma_role_count_prefix(roles_of(members@), i + 1, CellRole::Digestion);
                lemma_role_count_prefix(roles_of(members@), i + 1, CellRole::Reproduction);
                assert(roles_of(members@).take(i + 1) =~= roles_of(members@.take(i + 1)));
            }
            match members[i].role {
                CellRole::Sensing => pattern.sensing_count = pattern.sensing_count + 1,
                CellRole::Locomotion => pattern.locomotion_count = pattern.locomotion_count + 1,
                CellRole::Attack => pattern.attack_count = pattern.attack_count + 1,
                CellRole::Defense => pattern.defense_count = pattern.defense_count + 1,
                CellRole::Digestion => pattern.digestion_count = pattern.digestion_count + 1,
                CellRole::Reproduction => pattern.reproduction_count = pattern.reproduction_count
                    + 1,
                CellRole::Undifferentiated => {},
            }
        }
        assert(members@.take(n as int) =~= members@);
        pattern
    }
}

/// A count over a prefix never exceeds the count over the whole list.
proof fn lemma_role_count_prefix(roles: Seq<CellRole>, i: int, role: CellRole)
    requires
        0 <= i <= roles.len(),
    ensures
        role_count(roles.take(i), role) <= role_count(roles, role),
    decreases roles.len(),
{
    if i < roles.len() {
        assert(roles.drop_last().take(i) =~= roles.take(i));
        lemma_role_count_prefix(roles.drop_last(), i, role);
    } else {
        assert(roles.take(i) =~= roles);
    }
}

/// Counting a concatenation adds the counts.
proof fn lemma_role_count_concat(a: Seq<CellRole>, b: Seq<CellRole>, role: CellRole)
    ensures
        role_count(a + b, role) == role_count(a, role) + role_count(b, role),
    decreases b.len(),
{
    if b.len() > 0 {
        assert((a + b).drop_last() =~= a + b.drop_last());
        lemma_role_count_concat(a, b.drop_last(), role);
    } else {
        assert(a + b =~= a);
    }
}

/// Counting a run of one role.
proof fn lemma_role_count_run(n: nat, r: CellRole, role: CellRole)
    ensures
        role_count(Seq::new(n, |i: int| r), role) == (if r == role {
            n
        } else {
            0
        }),
    decreases n,
{
    if n > 0 {
        assert(Seq::new(n, |i: int| r).drop_last() =~= Seq::new((n - 1) as nat, |i: int| r));
        lemma_role_count_run((n - 1) as nat, r, role);
    }
}

/// Law: counting the roles of a pattern's flat role list gives back the
/// pattern, and the list is as long as the pattern has slots.
pub proof fn law_member_roles_round_trip(p: CompositionPattern)
    ensures
        role_count(pattern_roles(p), CellRole::Sensing) == p.sensing_count,
        role_count(pattern_roles(p), CellRole::Locomotion) == p.locomotion_count,
        role_count(pattern_roles(p), CellRole::Attack) == p.attack_count,
        role_count(pattern_roles(p), CellRole::Defense) == p.defense_count,
        role_count(pattern_roles(p), CellRole::Digestion) == p.digestion_count,
        role_count(pattern_roles(p), CellRole::Reproduction) == p.reproduction_count,
        role_count(pattern_roles(p), CellRole::Undifferentiated) == 0,
        pattern_roles(p).len() == pattern_slots(p),
{
    let s = Seq::new(p.sensing_count as nat, |i: int| CellRole::Sensing);
    let l = Seq::new(p.locomotion_count as nat, |i: int| CellRole::Locomotion);
    let a = Seq::new(p.attack_count as nat, |i: int| CellRole::Attack);
    let d = Seq::new(p.defense_count as nat, |i: int| CellRole::Defense);
    let g = Seq::new(p.digestion_count as nat, |i: int| CellRole::Digestion);
    let r = Seq::new(p.reproduction_count as nat, |i: int| CellRole::Reproduction);
    assert forall|role: CellRole| #[trigger]
        role_count(pattern_roles(p), role) == (if role == CellRole::Sensing {
            p.sensing_count as nat
        } else if role == CellRole::Locomotion {
            p.locomotion_count as nat
        } else if role == CellRole::Attack {
            p.attack_count as nat
        } else if role == CellRole::Defense {
            p.defense_count as nat
        } else if role == CellRole::Digestion {
            p.digestion_count as nat
        } else if role == CellRole::Reproduction {
            p.reproduction_count as nat
        } else {
            0nat
        }) by {
        lemma_role_count_concat(s, l, role);
        lemma_role_count_concat(s + l, a, role);
        lemma_role_count_concat(s + l + a, d, role);
        lemma_role_count_concat(s + l + a + d, g, role);
        lemma_role_count_concat(s + l + a + d + g, r, role);
        lemma_role_count_run(p.sensing_count as nat, CellRole::Sensing, role);
        lemma_role_count_run(p.locomotion_count as nat, CellRole::Locomotion, role);
        lemma_role_count_run(p.attack_count as nat, CellRole::Attack, role);
        lemma_role_count_run(p.defense_count as nat, CellRole::Defense, role);
        lemma_role_count_run(p.digestion_count as nat, CellRole::Digestion, role);
        lemma_role_count_run(p.reproduction_count as nat, CellRole::Reproduction, role);
    }
    assert(role_count(pattern_roles(p), CellRole::Sensing) == p.sensing_count);
    assert(role_count(pattern_roles(p), CellRole::Locomotion) == p.locomotion_count);
    assert(role_count(pattern_roles(p), CellRole::Attack) == p.attack_count);
    assert(role_count(pattern_roles(p), CellRole::Defense) == p.defense_count);
    assert(role_count(pattern_roles(p), CellRole::Digestion) == p.digestion_count);
    assert(role_count(pattern_roles(p), CellRole::Reproduction) == p.reproduction_count);
    assert(role_count(pattern_roles(p), CellRole::Undifferentiated) == 0);
}

/// Law: members that carry a pattern's flat role list rebuild the pattern:
/// their role counts, which `from_members` takes (and which all fit its
/// `u8` counts), are the pattern's six counts.
pub proof fn law_from_members_of_member_roles(p: CompositionPattern, members: Seq<CompositeMember>)
    requires
        roles_of(members) == pattern_roles(p),
    ensures
        role_count(roles_of(members), CellRole::Sensing) == p.sensing_count,
        role_count(roles_of(members), CellRole::Locomotion) == p.locomotion_count,
        role_count(roles_of(members), CellRole::Attack) == p.attack_count,
        role_count(roles_of(members), CellRole::Defense) == p.defense_count,
        role_count(roles_of(members), CellRole::Digestion) == p.digestion_count,
        role_count(roles_of(members), CellRole::Reproduction) == p.reproduction_count,
{
    law_member_roles_round_trip(p);
}

/// Law: a pattern built from members has as many slots as there are
/// specialised (not Undifferentiated) members.
pub proof fn law_from_members_slots(roles: Seq<CellRole>)
    ensures
        role_count(roles, CellRole::Sensing) + role_count(roles, CellRole::Locomotion) + role_count(
            roles,
            CellRole::Attack,
        ) + role_count(roles, CellRole::Defense) + role_count(roles, CellRole::Digestion)
            + role_count(roles, CellRole::Reproduction) + role_count(
            roles,
            CellRole::Undifferentiated,
        ) == roles.len(),
    decreases roles.len(),
{
    if roles.len() > 0 {
        law_from_members_slots(roles.drop_last());
    }
}

/// Maximum number of members in a composite (excluding leader).
pub const MAX_COMPOSITE_SIZE: usize = 7;

} // verus!
