//! Combining several groups of tools into one.
//!
//! Used by aggregate servers that expose the whole family's tools from a single
//! binary, and by hosts that embed several groups as library calls rather than
//! running each as a subprocess.
//!
//! Name collisions are the thing to get right. Two groups may legitimately both
//! want `search`, and silently letting the first win means the second's tool is
//! unreachable with no indication why. A prefix per group makes both available;
//! without one, the collision is reported rather than hidden.

use vstd::prelude::*;
use vstd::string::StringExecFns;

use crate::text;
use crate::text::{contains_text, same_text, strip_prefix};
use crate::tool;
use crate::tool::{clone_tools, Tool, ToolDef, ToolFailure, ToolResult};

verus! {

/// One member of a composite: the tools of a group plus an optional name prefix.
#[derive(Debug)]
pub struct Member {
    pub prefix: Option<String>,
    pub tools: Vec<ToolDef>,
}

/// What a member brings in.
pub struct Group {
    pub prefix: Option<Seq<char>>,
    pub tools: Seq<Tool>,
}

impl View for Member {
    type V = Group;

    open spec fn view(&self) -> Group {
        Group {
            prefix: match self.prefix {
                Some(prefix) => Some(prefix@),
                None => None,
            },
            tools: tool::tools_of(self.tools@),
        }
    }
}

/// What some members bring in.
pub open spec fn groups_of(members: Seq<Member>) -> Seq<Group> {
    Seq::new(members.len(), |i: int| members[i]@)
}

impl Group {
    /// The prefix, treating an empty one as absent.
    pub open spec fn namespace(self) -> Option<Seq<char>> {
        match self.prefix {
            Some(prefix) => if prefix.len() > 0 {
                Some(prefix)
            } else {
                None
            },
            None => None,
        }
    }

    /// The name under which a tool of this group is advertised: with the prefix,
    /// unless it starts with it.
    pub open spec fn advertised(self, name: Seq<char>) -> Seq<char> {
        match self.namespace() {
            Some(prefix) => if prefix.is_prefix_of(name) {
                name
            } else {
                prefix + name
            },
            None => name,
        }
    }

    /// Whether one of the tools of this group is advertised under this name.
    pub open spec fn offers(self, name: Seq<char>) -> bool {
        exists|t: int|
            0 <= t < self.tools.len() && self.advertised((#[trigger] self.tools[t]).name) == name
    }

    /// Whether one of the tools of this group goes by this name.
    pub open spec fn declares(self, name: Seq<char>) -> bool {
        exists|t: int| 0 <= t < self.tools.len() && (#[trigger] self.tools[t]).name == name
    }
}

impl Member {
    pub fn new(tools: Vec<ToolDef>) -> (member: Member)
        ensures
            member@ == (Group { prefix: None, tools: tool::tools_of(tools@) }),
    {
        Member { prefix: None, tools }
    }

    /// Namespaces this group's tools, e.g. `hex_` turns `view` into `hex_view`.
    #[must_use]
    pub fn prefixed(tools: Vec<ToolDef>, prefix: &str) -> (member: Member)
        ensures
            member@ == (Group { prefix: Some(prefix@), tools: tool::tools_of(tools@) }),
    {
        Member { prefix: Some(prefix.to_owned()), tools }
    }

    /// The name under which a tool of this group is advertised.
    pub fn advertised(&self, name: &str) -> (advertised: String)
        ensures
            advertised@ == self@.advertised(name@),
    {
        match &self.prefix {
            Some(prefix) => {
                if prefix.as_str().is_empty() || strip_prefix(name, prefix.as_str()).is_some() {
                    name.to_owned()
                } else {
                    let mut advertised = prefix.clone();
                    advertised.append(name);
                    advertised
                }
            },
            None => name.to_owned(),
        }
    }
}

/// A tool that a member wants to advertise, under its advertised name, and what
/// the member itself calls it.
pub struct Claim {
    pub member: int,
    pub own: Seq<char>,
    pub tool: Tool,
}

/// The tools of the member at `at`, under their advertised names.
pub open spec fn claimed_by(group: Group, at: int) -> Seq<Claim> {
    Seq::new(
        group.tools.len(),
        |i: int|
            Claim {
                member: at,
                own: group.tools[i].name,
                tool: Tool { name: group.advertised(group.tools[i].name), ..group.tools[i] },
            },
    )
}

/// What the members claim, member by member.
pub open spec fn claims(groups: Seq<Group>) -> Seq<Claim>
    decreases groups.len(),
{
    if groups.len() == 0 {
        Seq::empty()
    } else {
        claims(groups.drop_last()) + claimed_by(groups.last(), groups.len() - 1)
    }
}

/// The claims that were granted, and the names that more than one member
/// claimed.
pub struct Roster {
    pub granted: Seq<Claim>,
    pub collisions: Seq<Seq<char>>,
}

/// Whether a name has been granted.
pub open spec fn is_granted(granted: Seq<Claim>, name: Seq<char>) -> bool {
    exists|i: int| 0 <= i < granted.len() && (#[trigger] granted[i]).tool.name == name
}

/// Whether a name has been granted to another member.
pub open spec fn is_contested(granted: Seq<Claim>, name: Seq<char>, member: int) -> bool {
    exists|i: int|
        0 <= i < granted.len() && (#[trigger] granted[i]).tool.name == name && granted[i].member
            != member
}

/// Each name goes to the first that claims it; a claim to a name that another
/// member has is a collision.
pub open spec fn roster(claimed: Seq<Claim>) -> Roster
    decreases claimed.len(),
{
    if claimed.len() == 0 {
        Roster { granted: Seq::empty(), collisions: Seq::empty() }
    } else {
        let before = roster(claimed.drop_last());
        let name = claimed.last().tool.name;
        if !is_granted(before.granted, name) {
            Roster { granted: before.granted.push(claimed.last()), ..before }
        } else if is_contested(before.granted, name, claimed.last().member)
            && !before.collisions.contains(name) {
            Roster { collisions: before.collisions.push(name), ..before }
        } else {
            before
        }
    }
}

/// Several tool groups presented as one.
#[derive(Debug)]
pub struct Composite {
    members: Vec<Member>,
    tools: Vec<ToolDef>,
    /// For each tool the member that serves it.
    owners: Vec<usize>,
    /// For each tool what that member calls it.
    names: Vec<String>,
    /// Names more than one member claimed. Reported, never silently dropped.
    collisions: Vec<String>,
}

/// The claims that some tools, their owners and the owners' names for them stand
/// for.
pub open spec fn granted_claims(
    tools: Seq<ToolDef>,
    owners: Seq<usize>,
    names: Seq<String>,
) -> Seq<Claim> {
    Seq::new(
        tools.len(),
        |i: int| Claim { member: owners[i] as int, own: names[i]@, tool: tools[i]@ },
    )
}

impl Composite {
    /// What the members bring in.
    pub closed spec fn groups(self) -> Seq<Group> {
        groups_of(self.members@)
    }

    /// Which tools are advertised, and who serves each.
    pub closed spec fn granted(self) -> Seq<Claim> {
        granted_claims(self.tools@, self.owners@, self.names@)
    }

    /// The names that more than one member claimed.
    pub closed spec fn collided(self) -> Seq<Seq<char>> {
        text::texts(self.collisions@)
    }

    #[verifier::type_invariant]
    spec fn well_formed(self) -> bool {
        &&& self.tools@.len() == self.owners@.len()
        &&& self.tools@.len() == self.names@.len()
        &&& self.granted() == roster(claims(self.groups())).granted
        &&& self.collided() == roster(claims(self.groups())).collisions
        &&& forall|i: int|
            0 <= i < self.owners@.len() ==> (#[trigger] self.owners@[i]) < self.members@.len()
    }

    /// Puts the members' tools together. The first member that claims a name
    /// serves it.
    pub fn new(members: Vec<Member>) -> (composite: Composite)
        ensures
            composite.groups() == groups_of(members@),
            composite.granted() == roster(claims(groups_of(members@))).granted,
            composite.collided() == roster(claims(groups_of(members@))).collisions,
    {
        let ghost groups = groups_of(members@);
        let mut tools: Vec<ToolDef> = Vec::new();
        let mut owners: Vec<usize> = Vec::new();
        let mut names: Vec<String> = Vec::new();
        let mut collisions: Vec<String> = Vec::new();
        let ghost mut done: Seq<Claim> = Seq::empty();
        proof {
            assert(done =~= claims(groups.take(0)));
            assert(granted_claims(tools@, owners@, names@) =~= roster(done).granted);
            assert(text::texts(collisions@) =~= roster(done).collisions);
        }
        for m in 0..members.len()
            invariant
                groups == groups_of(members@),
                done == claims(groups.take(m as int)),
                tools@.len() == owners@.len(),
                tools@.len() == names@.len(),
                forall|i: int| 0 <= i < owners@.len() ==> (#[trigger] owners@[i]) < members@.len(),
                granted_claims(tools@, owners@, names@) == roster(done).granted,
                text::texts(collisions@) == roster(done).collisions,
        {
            let ghost own = claimed_by(groups[m as int], m as int);
            let ghost earlier = done;
            assert(done =~= earlier + own.take(0));
            let count = members[m].tools.len();
            for i in 0..count
                invariant
                    m < members@.len(),
                    count == members@[m as int].tools@.len(),
                    groups == groups_of(members@),
                    own == claimed_by(groups[m as int], m as int),
                    own.len() == members@[m as int].tools@.len(),
                    done == earlier + own.take(i as int),
                    tools@.len() == owners@.len(),
                    tools@.len() == names@.len(),
                    forall|k: int|
                        0 <= k < owners@.len() ==> (#[trigger] owners@[k]) < members@.len(),
                    granted_claims(tools@, owners@, names@) == roster(done).granted,
                    text::texts(collisions@) == roster(done).collisions,
            {
                let ghost claim = own[i as int];
                let ghost next = done.push(claim);
                assert(next.drop_last() =~= done);
                assert(next =~= earlier + own.take(i + 1));
                let def = &members[m].tools[i];
                let name = members[m].advertised(def.name.as_str());
                assert(claim.tool.name == name@);
                match find_tool(tools.as_slice(), name.as_str()) {
                    Some(at) => {
                        proof {
                            lemma_roster(done, name@);
                            let granted = roster(done).granted;
                            assert(granted[at as int].tool.name == name@);
                            assert(is_contested(granted, name@, m as int) == (owners@[at as int]
                                != m)) by {
                                if is_contested(granted, name@, m as int) {
                                    let k = choose|k: int|
                                        0 <= k < granted.len() && (
                                        #[trigger] granted[k]).tool.name == name@
                                            && granted[k].member != m;
                                    assert(k == at);
                                }
                            }
                        }
                        let other: usize = owners[at];
                        if other != m && !contains_text(collisions.as_slice(), name.as_str()) {
                            let ghost before = collisions@;
                            collisions.push(name);
                            assert(text::texts(collisions@) =~= text::texts(before).push(name@));
                        }
                    },
                    None => {
                        proof {
                            if is_granted(roster(done).granted, name@) {
                                let k = choose|k: int|
                                    0 <= k < roster(done).granted.len() && (
                                    #[trigger] roster(done).granted[k]).tool.name == name@;
                                assert(tools@[k]@.name == name@);
                            }
                        }
                        let ghost old_tools = tools@;
                        let ghost old_owners = owners@;
                        let ghost old_names = names@;
                        let served = ToolDef {
                            name,
                            description: def.description.clone(),
                            schema: def.schema.clone(),
                        };
                        assert(served@ == claim.tool);
                        tools.push(served);
                        owners.push(m);
                        names.push(def.name.clone());
                        assert(granted_claims(tools@, owners@, names@) =~= granted_claims(
                            old_tools,
                            old_owners,
                            old_names,
                        ).push(claim));
                    },
                }
                proof {
                    done = next;
                }
            }
            assert(own.take(own.len() as int) =~= own);
            assert(groups.take(m + 1).drop_last() =~= groups.take(m as int));
            assert(groups.take(m + 1).last() == groups[m as int]);
        }
        assert(groups.take(groups.len() as int) =~= groups);
        Composite { members, tools, owners, names, collisions }
    }

    /// Tool names claimed by more than one member. The first claimant serves
    /// them; give one of the groups a prefix to expose both.
    pub fn collisions(&self) -> (names: &[String])
        ensures
            text::texts(names@) == self.collided(),
    {
        self.collisions.as_slice()
    }

    /// The tools that are advertised.
    pub fn tools(&self) -> (tools: Vec<ToolDef>)
        ensures
            tool::tools_of(tools@) == Seq::new(
                self.granted().len(),
                |i: int| self.granted()[i].tool,
            ),
    {
        let tools = clone_tools(self.tools.as_slice());
        assert(tool::tools_of(tools@) =~= Seq::new(
            self.granted().len(),
            |i: int| self.granted()[i].tool,
        ));
        tools
    }

    /// Where a call goes: the member that serves the tool, and the name that
    /// member itself gives it.
    pub fn route(&self, name: &str) -> (route: ToolResult<(usize, String)>)
        ensures
            match route {
                Ok((member, local)) => {
                    &&& exists|i: int|
                        0 <= i < self.granted().len() && (#[trigger] self.granted()[i]).tool.name
                            == name@ && self.granted()[i].member == member
                            && self.granted()[i].own == local@
                    &&& member < self.groups().len()
                    &&& self.groups()[member as int].declares(local@)
                    &&& self.groups()[member as int].advertised(local@) == name@
                },
                Err(failure) => {
                    &&& !is_granted(self.granted(), name@)
                    &&& forall|i: int|
                        0 <= i < self.granted().len() ==> (#[trigger] self.granted()[i]).tool.name
                            != name@
                    &&& failure matches ToolFailure::NotFound(missing)
                    &&& missing@ == name@
                },
            },
    {
        proof {
            use_type_invariant(self);
        }
        match find_tool(self.tools.as_slice(), name) {
            Some(i) => {
                proof {
                    assert(self.granted()[i as int].tool.name == name@);
                    a_member_is_called_by_its_own_name(self.groups(), i as int);
                }
                Ok((self.owners[i], self.names[i].clone()))
            },
            None => {
                proof {
                    if is_granted(self.granted(), name@) {
                        let k = choose|k: int|
                            0 <= k < self.granted().len() && (#[trigger] self.granted()[k]).tool.name
                                == name@;
                        assert(self.tools@[k]@.name == name@);
                    }
                }
                Err(ToolFailure::NotFound(name.to_owned()))
            },
        }
    }
}

/// The position of the tool with this name.
pub fn find_tool(tools: &[ToolDef], name: &str) -> (at: Option<usize>)
    ensures
        match at {
            Some(i) => i < tools@.len() && tools@[i as int].name@ == name@ && forall|j: int|
                0 <= j < i ==> (#[trigger] tools@[j]).name@ != name@,
            None => forall|i: int| 0 <= i < tools@.len() ==> (#[trigger] tools@[i]).name@ != name@,
        },
{
    for i in 0..tools.len()
        invariant
            forall|j: int| 0 <= j < i ==> (#[trigger] tools@[j]).name@ != name@,
    {
        if same_text(tools[i].name.as_str(), name) {
            return Some(i);
        }
    }
    None
}

proof fn lemma_granted_pushed(granted: Seq<Claim>, claim: Claim, name: Seq<char>)
    ensures
        is_granted(granted.push(claim), name) == (claim.tool.name == name || is_granted(
            granted,
            name,
        )),
{
    let after = granted.push(claim);
    assert(after[granted.len() as int] == claim);
    if is_granted(granted, name) {
        let i = choose|i: int| 0 <= i < granted.len() && (#[trigger] granted[i]).tool.name == name;
        assert(after[i].tool.name == name);
    }
    if is_granted(after, name) && claim.tool.name != name {
        let i = choose|i: int| 0 <= i < after.len() && (#[trigger] after[i]).tool.name == name;
        assert(granted[i].tool.name == name);
    }
}

/// How often a name is claimed.
pub open spec fn times_claimed(claimed: Seq<Claim>, name: Seq<char>) -> nat
    decreases claimed.len(),
{
    if claimed.len() == 0 {
        0
    } else {
        times_claimed(claimed.drop_last(), name) + (if claimed.last().tool.name == name {
            1nat
        } else {
            0
        })
    }
}

/// Whether two members claim a name.
pub open spec fn claimed_by_two(claimed: Seq<Claim>, name: Seq<char>) -> bool {
    exists|i: int, j: int|
        0 <= i < claimed.len() && 0 <= j < claimed.len() && (#[trigger] claimed[i]).tool.name
            == name && (#[trigger] claimed[j]).tool.name == name && claimed[i].member
            != claimed[j].member
}

/// Every granted claim was made.
proof fn lemma_granted_claimed(claimed: Seq<Claim>)
    ensures
        forall|i: int|
            0 <= i < roster(claimed).granted.len() ==> claimed.contains(
                #[trigger] roster(claimed).granted[i],
            ),
    decreases claimed.len(),
{
    if claimed.len() > 0 {
        let rest = claimed.drop_last();
        lemma_granted_claimed(rest);
        let before = roster(rest).granted;
        let after = roster(claimed).granted;
        assert forall|i: int| 0 <= i < after.len() implies claimed.contains(
            #[trigger] after[i],
        ) by {
            if i < before.len() {
                assert(after[i] == before[i]);
                assert(rest.contains(before[i]));
                let k = choose|k: int| 0 <= k < rest.len() && rest[k] == before[i];
                assert(claimed[k] == after[i]);
            } else {
                assert(claimed[claimed.len() - 1] == after[i]);
            }
        }
    }
}

/// One more claim makes a name contested between two members where it was, or
/// where the one that has the name is another.
proof fn lemma_claimed_by_two(claimed: Seq<Claim>, name: Seq<char>)
    requires
        claimed.len() > 0,
        is_granted(roster(claimed.drop_last()).granted, name) == (times_claimed(
            claimed.drop_last(),
            name,
        ) > 0),
    ensures
        claimed_by_two(claimed, name) == (claimed_by_two(claimed.drop_last(), name) || (
        claimed.last().tool.name == name && is_contested(
            roster(claimed.drop_last()).granted,
            name,
            claimed.last().member,
        ))),
{
    let rest = claimed.drop_last();
    let last = claimed[claimed.len() - 1];
    let granted = roster(rest).granted;
    lemma_granted_claimed(rest);
    if claimed_by_two(rest, name) {
        let (i, j) = choose|i: int, j: int|
            0 <= i < rest.len() && 0 <= j < rest.len() && (#[trigger] rest[i]).tool.name == name
                && (#[trigger] rest[j]).tool.name == name && rest[i].member != rest[j].member;
        assert(claimed[i] == rest[i] && claimed[j] == rest[j]);
    }
    if last.tool.name == name && is_contested(granted, name, last.member) {
        let g = choose|g: int|
            0 <= g < granted.len() && (#[trigger] granted[g]).tool.name == name
                && granted[g].member != last.member;
        assert(rest.contains(granted[g]));
        let k = choose|k: int| 0 <= k < rest.len() && rest[k] == granted[g];
        assert(claimed[k] == granted[g]);
        assert(claimed[claimed.len() - 1] == last);
    }
    if claimed_by_two(claimed, name) && !claimed_by_two(rest, name) {
        let (i, j) = choose|i: int, j: int|
            0 <= i < claimed.len() && 0 <= j < claimed.len() && (
            #[trigger] claimed[i]).tool.name == name && (#[trigger] claimed[j]).tool.name == name
                && claimed[i].member != claimed[j].member;
        let k = if i == claimed.len() - 1 {
            j
        } else {
            i
        };
        if i < rest.len() && j < rest.len() {
            assert(rest[i] == claimed[i] && rest[j] == claimed[j]);
        }
        assert(rest[k] == claimed[k]);
        lemma_claimed(rest, k);
        let g = choose|g: int|
            0 <= g < granted.len() && (#[trigger] granted[g]).tool.name == name;
        assert(rest.contains(granted[g]));
        let h = choose|h: int| 0 <= h < rest.len() && rest[h] == granted[g];
        if granted[g].member == last.member {
            assert(rest[h].tool.name == name && rest[k].tool.name == name);
        }
    }
}

proof fn lemma_roster(claimed: Seq<Claim>, name: Seq<char>)
    ensures
        is_granted(roster(claimed).granted, name) == (times_claimed(claimed, name) > 0),
        roster(claimed).collisions.contains(name) == claimed_by_two(claimed, name),
        roster(claimed).collisions.no_duplicates(),
        forall|i: int, j: int|
            0 <= i < j < roster(claimed).granted.len() ==> (
            #[trigger] roster(claimed).granted[i]).tool.name != (
            #[trigger] roster(claimed).granted[j]).tool.name,
    decreases claimed.len(),
{
    let after = roster(claimed);
    if claimed.len() > 0 {
        let rest = claimed.drop_last();
        let before = roster(rest);
        let last = claimed.last();
        lemma_roster(rest, name);
        lemma_roster(rest, last.tool.name);
        lemma_claimed_by_two(claimed, name);
        if !is_granted(before.granted, last.tool.name) {
            assert(!is_contested(before.granted, last.tool.name, last.member));
            lemma_granted_pushed(before.granted, last, name);
            assert forall|i: int, j: int| 0 <= i < j < after.granted.len() implies (
            #[trigger] after.granted[i]).tool.name != (#[trigger] after.granted[j]).tool.name by {
                assert(after.granted[i] == before.granted[i]);
                if j < before.granted.len() {
                    assert(after.granted[j] == before.granted[j]);
                }
            }
        } else if is_contested(before.granted, last.tool.name, last.member)
            && !before.collisions.contains(last.tool.name) {
            let added = last.tool.name;
            assert(after.collisions[before.collisions.len() as int] == added);
            if before.collisions.contains(name) {
                let i = choose|i: int|
                    0 <= i < before.collisions.len() && before.collisions[i] == name;
                assert(after.collisions[i] == name);
            }
            assert forall|i: int, j: int|
                0 <= i < after.collisions.len() && 0 <= j < after.collisions.len() && i
                    != j implies after.collisions[i] != after.collisions[j] by {
                if i < before.collisions.len() && j == before.collisions.len() {
                    assert(before.collisions.contains(before.collisions[i]));
                }
                if j < before.collisions.len() && i == before.collisions.len() {
                    assert(before.collisions.contains(before.collisions[j]));
                }
            }
        }
    }
}

/// A name is advertised if and only if it is claimed, and is advertised once.
pub proof fn every_claimed_name_is_advertised_once(groups: Seq<Group>, name: Seq<char>)
    ensures
        is_granted(roster(claims(groups)).granted, name) == (times_claimed(claims(groups), name)
            > 0),
        forall|i: int, j: int|
            0 <= i < j < roster(claims(groups)).granted.len() ==> (
            #[trigger] roster(claims(groups)).granted[i]).tool.name != (
            #[trigger] roster(claims(groups)).granted[j]).tool.name,
{
    lemma_roster(claims(groups), name);
}

/// A collision is reported if and only if two members claim a name, that is,
/// advertise a tool under it, and is reported once.
pub proof fn every_collision_is_reported(groups: Seq<Group>, name: Seq<char>)
    ensures
        roster(claims(groups)).collisions.contains(name) == claimed_by_two(claims(groups), name),
        roster(claims(groups)).collisions.contains(name) <==> exists|m: int, n: int|
            0 <= m < groups.len() && 0 <= n < groups.len() && m != n && (
            #[trigger] groups[m]).offers(name) && (#[trigger] groups[n]).offers(name),
        roster(claims(groups)).collisions.no_duplicates(),
{
    let claimed = claims(groups);
    lemma_roster(claimed, name);
    if claimed_by_two(claimed, name) {
        let (i, j) = choose|i: int, j: int|
            0 <= i < claimed.len() && 0 <= j < claimed.len() && (
            #[trigger] claimed[i]).tool.name == name && (#[trigger] claimed[j]).tool.name == name
                && claimed[i].member != claimed[j].member;
        let (m, s) = lemma_origin(groups, i);
        let (n, t) = lemma_origin(groups, j);
        assert(groups[m].advertised(groups[m].tools[s].name) == name);
        assert(groups[n].advertised(groups[n].tools[t].name) == name);
        assert(groups[m].offers(name) && groups[n].offers(name));
    }
    if exists|m: int, n: int|
        0 <= m < groups.len() && 0 <= n < groups.len() && m != n && (
        #[trigger] groups[m]).offers(name) && (#[trigger] groups[n]).offers(name) {
        let (m, n) = choose|m: int, n: int|
            0 <= m < groups.len() && 0 <= n < groups.len() && m != n && (
            #[trigger] groups[m]).offers(name) && (#[trigger] groups[n]).offers(name);
        let s = choose|s: int|
            0 <= s < groups[m].tools.len() && groups[m].advertised(
                (#[trigger] groups[m].tools[s]).name,
            ) == name;
        let t = choose|t: int|
            0 <= t < groups[n].tools.len() && groups[n].advertised(
                (#[trigger] groups[n].tools[t]).name,
            ) == name;
        let i = lemma_in_claims(groups, m, s);
        let j = lemma_in_claims(groups, n, t);
        assert(claimed[i].tool.name == name && claimed[j].tool.name == name);
    }
}

/// The member and the tool that a claim stands for.
proof fn lemma_origin(groups: Seq<Group>, at: int) -> (origin: (int, int))
    requires
        0 <= at < claims(groups).len(),
    ensures
        0 <= origin.0 < groups.len(),
        0 <= origin.1 < groups[origin.0].tools.len(),
        claims(groups)[at] == claimed_by(groups[origin.0], origin.0)[origin.1],
    decreases groups.len(),
{
    let rest = groups.drop_last();
    if at < claims(rest).len() {
        let origin = lemma_origin(rest, at);
        assert(rest[origin.0] == groups[origin.0]);
        origin
    } else {
        (groups.len() - 1, at - claims(rest).len())
    }
}

proof fn lemma_claimed(claimed: Seq<Claim>, at: int)
    requires
        0 <= at < claimed.len(),
    ensures
        times_claimed(claimed, claimed[at].tool.name) > 0,
    decreases claimed.len(),
{
    if at < claimed.len() - 1 {
        assert(claimed.drop_last()[at] == claimed[at]);
        lemma_claimed(claimed.drop_last(), at);
    }
}

proof fn lemma_first_is_granted(claimed: Seq<Claim>, at: int) -> (place: int)
    requires
        0 <= at < claimed.len(),
        forall|i: int|
            0 <= i < at ==> (#[trigger] claimed[i]).tool.name != claimed[at].tool.name,
    ensures
        0 <= place < roster(claimed).granted.len(),
        roster(claimed).granted[place] == claimed[at],
    decreases claimed.len(),
{
    let rest = claimed.drop_last();
    let before = roster(rest);
    if at == claimed.len() - 1 {
        lemma_roster(rest, claimed[at].tool.name);
        assert(times_claimed(rest, claimed[at].tool.name) == 0) by {
            assert forall|i: int| 0 <= i < rest.len() implies (#[trigger] rest[i]).tool.name
                != claimed[at].tool.name by {
                assert(rest[i] == claimed[i]);
            }
            lemma_not_claimed(rest, claimed[at].tool.name);
        }
        before.granted.len() as int
    } else {
        assert(rest[at] == claimed[at]);
        assert forall|i: int| 0 <= i < at implies (#[trigger] rest[i]).tool.name
            != rest[at].tool.name by {
            assert(rest[i] == claimed[i]);
        }
        let place = lemma_first_is_granted(rest, at);
        place
    }
}

proof fn lemma_not_claimed(claimed: Seq<Claim>, name: Seq<char>)
    requires
        forall|i: int| 0 <= i < claimed.len() ==> (#[trigger] claimed[i]).tool.name != name,
    ensures
        times_claimed(claimed, name) == 0,
    decreases claimed.len(),
{
    if claimed.len() > 0 {
        let rest = claimed.drop_last();
        assert forall|i: int| 0 <= i < rest.len() implies (#[trigger] rest[i]).tool.name
            != name by {
            assert(rest[i] == claimed[i]);
        }
        lemma_not_claimed(rest, name);
        assert(claimed[claimed.len() - 1].tool.name != name);
    }
}

/// The first that claims a name serves it: whoever serves an advertised name
/// claimed it before everyone else who did.
pub proof fn the_first_claimant_serves(groups: Seq<Group>, at: int, place: int)
    requires
        0 <= at < claims(groups).len(),
        forall|i: int|
            0 <= i < at ==> (#[trigger] claims(groups)[i]).tool.name
                != claims(groups)[at].tool.name,
        0 <= place < roster(claims(groups)).granted.len(),
        roster(claims(groups)).granted[place].tool.name == claims(groups)[at].tool.name,
    ensures
        roster(claims(groups)).granted[place] == claims(groups)[at],
{
    let claimed = claims(groups);
    let first = lemma_first_is_granted(claimed, at);
    lemma_roster(claimed, claimed[at].tool.name);
}

/// Every tool of every member is advertised under its advertised name.
pub proof fn every_member_contributes_its_tools(groups: Seq<Group>, m: int, t: int)
    requires
        0 <= m < groups.len(),
        0 <= t < groups[m].tools.len(),
    ensures
        is_granted(
            roster(claims(groups)).granted,
            groups[m].advertised(groups[m].tools[t].name),
        ),
{
    let at = lemma_in_claims(groups, m, t);
    lemma_claimed(claims(groups), at);
    lemma_roster(claims(groups), claims(groups)[at].tool.name);
}

proof fn lemma_in_claims(groups: Seq<Group>, m: int, t: int) -> (at: int)
    requires
        0 <= m < groups.len(),
        0 <= t < groups[m].tools.len(),
    ensures
        0 <= at < claims(groups).len(),
        claims(groups)[at] == claimed_by(groups[m], m)[t],
    decreases groups.len(),
{
    let rest = groups.drop_last();
    if m == groups.len() - 1 {
        claims(rest).len() + t
    } else {
        assert(rest[m] == groups[m]);
        lemma_in_claims(rest, m, t)
    }
}

/// What a member is called with is a name of its own: one of its tools goes by
/// it, and that tool is the one advertised.
pub proof fn a_member_is_called_by_its_own_name(groups: Seq<Group>, place: int)
    requires
        0 <= place < roster(claims(groups)).granted.len(),
    ensures
        ({
            let claim = roster(claims(groups)).granted[place];
            &&& 0 <= claim.member < groups.len()
            &&& groups[claim.member].declares(claim.own)
            &&& groups[claim.member].advertised(claim.own) == claim.tool.name
            &&& groups[claim.member].tools.contains(Tool { name: claim.own, ..claim.tool })
        }),
{
    let claim = roster(claims(groups)).granted[place];
    lemma_granted_claimed(claims(groups));
    assert(claims(groups).contains(claim));
    let at = choose|at: int| 0 <= at < claims(groups).len() && claims(groups)[at] == claim;
    let (m, t) = lemma_origin(groups, at);
    assert(groups[m].tools[t] == (Tool { name: claim.own, ..claim.tool }));
}

/// A name is prefixed once: advertising an advertised name changes nothing.
pub proof fn a_name_is_not_prefixed_twice(group: Group, name: Seq<char>)
    ensures
        group.advertised(group.advertised(name)) == group.advertised(name),
{
    match group.namespace() {
        Some(prefix) => {
            assert(prefix.is_prefix_of(prefix + name));
        },
        None => {},
    }
}

/// A group's prefix namespaces its tools: every advertised name starts with the
/// whole prefix, which is put in front of the names that do not. Without a prefix
/// the names stay as they are.
pub proof fn every_advertised_name_carries_the_prefix(group: Group, name: Seq<char>)
    ensures
        match group.prefix {
            Some(prefix) => {
                &&& prefix.is_prefix_of(group.advertised(name))
                &&& !prefix.is_prefix_of(name) ==> group.advertised(name) == prefix + name
                &&& prefix.is_prefix_of(name) ==> group.advertised(name) == name
            },
            None => group.advertised(name) == name,
        },
{
    match group.prefix {
        Some(prefix) => {
            if prefix.len() == 0 {
                assert(prefix.is_prefix_of(name));
            }
            assert(prefix.is_prefix_of(prefix + name));
        },
        None => {},
    }
}

/// Two names of one group that do not carry its prefix stay two names.
pub proof fn a_prefix_keeps_names_apart(group: Group, a: Seq<char>, b: Seq<char>)
    requires
        group.prefix matches Some(prefix) ==> prefix.is_prefix_of(a) == prefix.is_prefix_of(b),
        group.advertised(a) == group.advertised(b),
    ensures
        a == b,
{
    match group.namespace() {
        Some(prefix) => {
            if !prefix.is_prefix_of(a) {
                assert((prefix + a).skip(prefix.len() as int) =~= a);
                assert((prefix + b).skip(prefix.len() as int) =~= b);
            }
        },
        None => {},
    }
}

/// Whether a claim is that of the member at `m` for its tool at `t`: under the
/// advertised name, and otherwise as the member describes it.
pub open spec fn stems_from(groups: Seq<Group>, claim: Claim, m: int, t: int) -> bool {
    &&& 0 <= m < groups.len()
    &&& 0 <= t < groups[m].tools.len()
    &&& claim.member == m
    &&& claim.own == groups[m].tools[t].name
    &&& claim.tool.name == groups[m].advertised(groups[m].tools[t].name)
    &&& claim.tool.description == groups[m].tools[t].description
    &&& claim.tool.schema == groups[m].tools[t].schema
}

/// Whether the tool at `s` of the member at `m` comes before the one at `t` of the
/// member at `n`.
pub open spec fn comes_before(m: int, s: int, n: int, t: int) -> bool {
    m < n || (m == n && s < t)
}

/// Where the claim for a tool stands.
spec fn claim_place(groups: Seq<Group>, m: int, t: int) -> int {
    claims(groups.take(m)).len() + t
}

proof fn lemma_claims_grow(groups: Seq<Group>, m: int, n: int)
    requires
        0 <= m < n <= groups.len(),
    ensures
        claims(groups.take(m)).len() + groups[m].tools.len() <= claims(groups.take(n)).len(),
    decreases n - m,
{
    assert(groups.take(n).drop_last() =~= groups.take(n - 1));
    assert(groups.take(n).last() == groups[n - 1]);
    if m < n - 1 {
        lemma_claims_grow(groups, m, n - 1);
    }
}

proof fn lemma_claim_at(groups: Seq<Group>, m: int, t: int)
    requires
        0 <= m < groups.len(),
        0 <= t < groups[m].tools.len(),
    ensures
        0 <= claim_place(groups, m, t) < claims(groups).len(),
        claims(groups)[claim_place(groups, m, t)] == claimed_by(groups[m], m)[t],
    decreases groups.len(),
{
    let rest = groups.drop_last();
    if m == groups.len() - 1 {
        assert(groups.take(m) =~= rest);
    } else {
        assert(rest[m] == groups[m]);
        assert(rest.take(m) =~= groups.take(m));
        lemma_claim_at(rest, m, t);
    }
}

proof fn lemma_claim_origin(groups: Seq<Group>, at: int) -> (origin: (int, int))
    requires
        0 <= at < claims(groups).len(),
    ensures
        stems_from(groups, claims(groups)[at], origin.0, origin.1),
        at == claim_place(groups, origin.0, origin.1),
    decreases groups.len(),
{
    let rest = groups.drop_last();
    if at < claims(rest).len() {
        let origin = lemma_claim_origin(rest, at);
        assert(rest[origin.0] == groups[origin.0]);
        assert(rest.take(origin.0) =~= groups.take(origin.0));
        origin
    } else {
        assert(groups.take(groups.len() - 1) =~= rest);
        (groups.len() - 1, at - claims(rest).len())
    }
}

proof fn lemma_claims_ordered(groups: Seq<Group>, m: int, s: int, n: int, t: int)
    requires
        0 <= m < groups.len(),
        0 <= s < groups[m].tools.len(),
        0 <= n < groups.len(),
        0 <= t < groups[n].tools.len(),
    ensures
        claim_place(groups, m, s) < claim_place(groups, n, t) <==> comes_before(m, s, n, t),
{
    if m < n {
        lemma_claims_grow(groups, m, n);
    } else if n < m {
        lemma_claims_grow(groups, n, m);
    }
}

proof fn lemma_granted_in_order(claimed: Seq<Claim>, p: int, q: int) -> (at: (int, int))
    requires
        0 <= p < q < roster(claimed).granted.len(),
    ensures
        0 <= at.0 < at.1 < claimed.len(),
        claimed[at.0] == roster(claimed).granted[p],
        claimed[at.1] == roster(claimed).granted[q],
    decreases claimed.len(),
{
    let rest = claimed.drop_last();
    let before = roster(rest).granted;
    if q < before.len() {
        let at = lemma_granted_in_order(rest, p, q);
        assert(rest[at.0] == claimed[at.0] && rest[at.1] == claimed[at.1]);
        at
    } else {
        lemma_granted_claimed(rest);
        assert(rest.contains(before[p]));
        let i = choose|i: int| 0 <= i < rest.len() && rest[i] == before[p];
        assert(claimed[i] == before[p]);
        (i, claimed.len() - 1)
    }
}

/// A tool is served by its own member where no tool before it is advertised under
/// the same name: its claim is granted, with its description and its schema, and
/// a call of the advertised name goes to that member under the tool's own name.
pub proof fn the_first_tool_of_a_name_is_served(groups: Seq<Group>, m: int, t: int)
    requires
        0 <= m < groups.len(),
        0 <= t < groups[m].tools.len(),
        forall|n: int, s: int|
            #![trigger groups[n].tools[s]]
            0 <= n < groups.len() && 0 <= s < groups[n].tools.len() && comes_before(n, s, m, t)
                ==> groups[n].advertised(groups[n].tools[s].name) != groups[m].advertised(
                groups[m].tools[t].name,
            ),
    ensures
        exists|place: int|
            0 <= place < roster(claims(groups)).granted.len() && stems_from(
                groups,
                #[trigger] roster(claims(groups)).granted[place],
                m,
                t,
            ),
{
    let claimed = claims(groups);
    let at = claim_place(groups, m, t);
    lemma_claim_at(groups, m, t);
    assert forall|i: int| 0 <= i < at implies (#[trigger] claimed[i]).tool.name
        != claimed[at].tool.name by {
        let (n, s) = lemma_claim_origin(groups, i);
        lemma_claims_ordered(groups, n, s, m, t);
        assert(groups[n].tools[s].name == claimed[i].own);
    }
    let place = lemma_first_is_granted(claimed, at);
    assert(stems_from(groups, roster(claimed).granted[place], m, t));
}

/// Every tool of every member can be called: some tool is advertised under its
/// advertised name.
pub proof fn every_tool_can_be_called(groups: Seq<Group>, m: int, t: int)
    requires
        0 <= m < groups.len(),
        0 <= t < groups[m].tools.len(),
    ensures
        exists|place: int|
            0 <= place < roster(claims(groups)).granted.len() && (
            #[trigger] roster(claims(groups)).granted[place]).tool.name == groups[m].advertised(
                groups[m].tools[t].name,
            ),
{
    every_member_contributes_its_tools(groups, m, t);
}

/// What is advertised keeps the order of the members and of the tools of each,
/// and comes from nowhere else.
pub proof fn tools_are_advertised_in_order(groups: Seq<Group>, p: int, q: int)
    requires
        0 <= p < q < roster(claims(groups)).granted.len(),
    ensures
        exists|m: int, s: int, n: int, t: int|
            #![trigger stems_from(groups, roster(claims(groups)).granted[p], m, s), stems_from(groups, roster(claims(groups)).granted[q], n, t)]
            stems_from(groups, roster(claims(groups)).granted[p], m, s) && stems_from(
                groups,
                roster(claims(groups)).granted[q],
                n,
                t,
            ) && comes_before(m, s, n, t),
{
    let granted = roster(claims(groups)).granted;
    let (i, j) = lemma_granted_in_order(claims(groups), p, q);
    let (m, s) = lemma_claim_origin(groups, i);
    let (n, t) = lemma_claim_origin(groups, j);
    lemma_claims_ordered(groups, m, s, n, t);
    assert(stems_from(groups, granted[p], m, s) && stems_from(groups, granted[q], n, t));
}

/// What is advertised is some member's tool, as that member describes it.
pub proof fn what_is_advertised_is_a_members_tool(groups: Seq<Group>, place: int)
    requires
        0 <= place < roster(claims(groups)).granted.len(),
    ensures
        exists|m: int, t: int|
            #[trigger] stems_from(groups, roster(claims(groups)).granted[place], m, t),
{
    let claim = roster(claims(groups)).granted[place];
    lemma_granted_claimed(claims(groups));
    assert(claims(groups).contains(claim));
    let at = choose|at: int| 0 <= at < claims(groups).len() && claims(groups)[at] == claim;
    let (m, t) = lemma_claim_origin(groups, at);
    assert(stems_from(groups, claim, m, t));
}

/// Two members that advertise tools under one name collide, and the name is
/// reported.
pub proof fn two_members_with_one_name_collide(
    groups: Seq<Group>,
    m: int,
    s: int,
    n: int,
    t: int,
)
    requires
        0 <= m < groups.len(),
        0 <= s < groups[m].tools.len(),
        0 <= n < groups.len(),
        0 <= t < groups[n].tools.len(),
        m != n,
        groups[m].advertised(groups[m].tools[s].name) == groups[n].advertised(
            groups[n].tools[t].name,
        ),
    ensures
        roster(claims(groups)).collisions.contains(
            groups[m].advertised(groups[m].tools[s].name),
        ),
{
    let name = groups[m].advertised(groups[m].tools[s].name);
    every_collision_is_reported(groups, name);
    assert(groups[m].offers(name));
    assert(groups[n].offers(name));
}

/// A reported collision is one: two members advertise tools under the name.
pub proof fn a_reported_collision_is_one(groups: Seq<Group>, name: Seq<char>)
    requires
        roster(claims(groups)).collisions.contains(name),
    ensures
        exists|m: int, s: int, n: int, t: int|
            #![trigger groups[m].tools[s], groups[n].tools[t]]
            0 <= m < groups.len() && 0 <= s < groups[m].tools.len() && 0 <= n < groups.len() && 0
                <= t < groups[n].tools.len() && m != n && groups[m].advertised(
                groups[m].tools[s].name,
            ) == name && groups[n].advertised(groups[n].tools[t].name) == name,
{
    every_collision_is_reported(groups, name);
    let (m, n) = choose|m: int, n: int|
        0 <= m < groups.len() && 0 <= n < groups.len() && m != n && (
        #[trigger] groups[m]).offers(name) && (#[trigger] groups[n]).offers(name);
    let s = choose|s: int|
        0 <= s < groups[m].tools.len() && groups[m].advertised(
            (#[trigger] groups[m].tools[s]).name,
        ) == name;
    let t = choose|t: int|
        0 <= t < groups[n].tools.len() && groups[n].advertised(
            (#[trigger] groups[n].tools[t]).name,
        ) == name;
    assert(groups[m].advertised(groups[m].tools[s].name) == name);
    assert(groups[n].advertised(groups[n].tools[t].name) == name);
}

} // verus!
