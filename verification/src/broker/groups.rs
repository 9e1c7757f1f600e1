//! The group coordinator: membership, generations, range assignment, and
//! zombie fencing for one broker.
//!
//! The broker computes assignments itself instead of shipping the member list
//! to a client-side "leader": one strategy, one round trip and one owner of
//! truth.
//!
//! Every membership change bumps the group's generation. A member whose
//! requests carry an old generation is a zombie — it missed a rebalance —
//! and gets StaleGeneration, whose only correct handling is to rejoin.

use crate::order::{add_text, distinct_texts, text_before, text_le, texts};
use crate::proto::ErrorCode;
use crate::text::{decimal, push_decimal, same_text};
use vstd::prelude::*;
use vstd::string::*;

verus! {

pub struct Member {
    id: String,
    topics: Vec<String>,
    session_timeout_ms: u64,
    last_heartbeat_ms: u64,
    assignment: Vec<(String, u32)>,
}

struct Group {
    name: String,
    generation: u64,
    members: Vec<Member>,
}

pub struct JoinOutcome {
    pub member_id: String,
    pub generation: u64,
    pub assignment: Vec<(String, u32)>,
}

pub struct GroupCoordinator {
    groups: Vec<Group>,
    next_member: u64,
}

/// Partitions of topics.
pub open spec fn slots(v: Seq<(String, u32)>) -> Seq<(Seq<char>, u32)> {
    v.map_values(|p: (String, u32)| (p.0@, p.1))
}

/// One member of a group: what it subscribes to, when it was last heard, and
/// what it was assigned.
pub ghost struct MemberInfo {
    pub id: Seq<char>,
    pub topics: Seq<Seq<char>>,
    pub timeout: u64,
    pub last: u64,
    pub assignment: Seq<(Seq<char>, u32)>,
}

/// A group, its members in the order of their ids.
pub ghost struct GroupInfo {
    pub name: Seq<char>,
    pub generation: u64,
    pub members: Seq<MemberInfo>,
}

pub ghost struct Groups {
    pub groups: Seq<GroupInfo>,
    pub next: u64,
}

impl View for Member {
    type V = MemberInfo;

    closed spec fn view(&self) -> MemberInfo {
        MemberInfo {
            id: self.id@,
            topics: texts(self.topics@),
            timeout: self.session_timeout_ms,
            last: self.last_heartbeat_ms,
            assignment: slots(self.assignment@),
        }
    }
}

spec fn member_views(v: Seq<Member>) -> Seq<MemberInfo> {
    v.map_values(|m: Member| m@)
}

impl View for Group {
    type V = GroupInfo;

    closed spec fn view(&self) -> GroupInfo {
        GroupInfo {
            name: self.name@,
            generation: self.generation,
            members: member_views(self.members@),
        }
    }
}

spec fn group_views(v: Seq<Group>) -> Seq<GroupInfo> {
    v.map_values(|g: Group| g@)
}

impl View for GroupCoordinator {
    type V = Groups;

    closed spec fn view(&self) -> Groups {
        Groups { groups: group_views(self.groups@), next: self.next_member }
    }
}

/// The members of a group stand in the order of their ids, none twice.
pub open spec fn ordered(ms: Seq<MemberInfo>) -> bool {
    forall|i: int, j: int|
        0 <= i < j < ms.len() ==> text_le((#[trigger] ms[i]).id, (#[trigger] ms[j]).id)
            && ms[i].id != ms[j].id
}

/// No two groups have one name, and the members of each are in order.
pub open spec fn groups_ok(gs: Seq<GroupInfo>) -> bool {
    &&& forall|i: int| 0 <= i < gs.len() ==> ordered((#[trigger] gs[i]).members)
    &&& forall|i: int, j: int|
        0 <= i < j < gs.len() ==> (#[trigger] gs[i]).name != (#[trigger] gs[j]).name
}

/// There is room for another member of a group, and for its rebalance.
pub open spec fn group_room(g: GroupInfo) -> bool {
    &&& g.generation < u64::MAX
    &&& g.members.len() < u32::MAX
}

/// There is room for another rebalance of each group.
pub open spec fn groups_room(gs: Seq<GroupInfo>) -> bool {
    forall|i: int| 0 <= i < gs.len() ==> group_room(#[trigger] gs[i])
}

/// How many partitions a topic has, if it is known.
pub open spec fn count_of(counts: Map<Seq<char>, u32>, topic: Seq<char>) -> Option<u32> {
    if counts.contains_key(topic) {
        Some(counts[topic])
    } else {
        None
    }
}

/// What a list of topics with their numbers of partitions says; of two entries
/// for one topic the later counts.
pub open spec fn count_map(counts: Seq<(String, u32)>) -> Map<Seq<char>, u32>
    decreases counts.len(),
{
    if counts.len() == 0 {
        Map::empty()
    } else {
        count_map(counts.drop_last()).insert(counts.last().0@, counts.last().1)
    }
}

pub open spec fn subscribed(m: MemberInfo, topic: Seq<char>) -> bool {
    m.topics.contains(topic)
}

/// How many of the first `i` members subscribe to a topic.
pub open spec fn rank(ms: Seq<MemberInfo>, topic: Seq<char>, i: int) -> nat
    decreases i,
{
    if i <= 0 {
        0
    } else {
        rank(ms, topic, i - 1) + if subscribed(ms[i - 1], topic) {
            1nat
        } else {
            0
        }
    }
}

/// Where the `k`-th of `n` chunks of `count` partitions begins; the remainder
/// goes to the front.
pub open spec fn chunk(count: nat, n: nat, k: nat) -> nat {
    k * (count / n) + if k < count % n {
        k
    } else {
        count % n
    }
}

/// The partitions of one topic that go to member `i`.
pub open spec fn share(ms: Seq<MemberInfo>, topic: Seq<char>, count: u32, i: int) -> Seq<
    (Seq<char>, u32),
> {
    if subscribed(ms[i], topic) {
        let n = rank(ms, topic, ms.len() as int);
        let k = rank(ms, topic, i);
        let lo = chunk(count as nat, n, k);
        let hi = chunk(count as nat, n, k + 1);
        Seq::new((hi - lo) as nat, |x: int| (topic, (lo + x) as u32))
    } else {
        Seq::empty()
    }
}

/// The partitions of the topics that go to member `i`: for each topic, its
/// partitions in order are chunked across the subscribed members in member-id
/// order.
pub open spec fn shares(
    ms: Seq<MemberInfo>,
    topics: Seq<Seq<char>>,
    counts: Map<Seq<char>, u32>,
    i: int,
) -> Seq<(Seq<char>, u32)>
    decreases topics.len(),
{
    if topics.len() == 0 {
        Seq::empty()
    } else {
        shares(ms, topics.drop_last(), counts, i) + match count_of(counts, topics.last()) {
            Some(count) => share(ms, topics.last(), count, i),
            None => Seq::empty(),
        }
    }
}

/// What the first `n` members subscribe to.
pub open spec fn subscriptions(ms: Seq<MemberInfo>, n: int) -> Seq<Seq<char>>
    decreases n,
{
    if n <= 0 {
        Seq::empty()
    } else {
        subscriptions(ms, n - 1) + ms[n - 1].topics
    }
}

/// The topics that the members subscribe to, in order, each once.
pub open spec fn topics_of(ms: Seq<MemberInfo>) -> Seq<Seq<char>> {
    distinct_texts(subscriptions(ms, ms.len() as int))
}

/// The members with everything assigned anew.
pub open spec fn assigned(ms: Seq<MemberInfo>, counts: Map<Seq<char>, u32>) -> Seq<MemberInfo> {
    Seq::new(
        ms.len(),
        |i: int| MemberInfo { assignment: shares(ms, topics_of(ms), counts, i), ..ms[i] },
    )
}

/// The place of a member.
pub open spec fn member_at(ms: Seq<MemberInfo>, id: Seq<char>) -> Option<int>
    decreases ms.len(),
{
    if ms.len() == 0 {
        None
    } else if ms.last().id == id {
        Some(ms.len() - 1)
    } else {
        member_at(ms.drop_last(), id)
    }
}

/// The place of a group.
pub open spec fn group_at(gs: Seq<GroupInfo>, name: Seq<char>) -> Option<int>
    decreases gs.len(),
{
    if gs.len() == 0 {
        None
    } else if gs.last().name == name {
        Some(gs.len() - 1)
    } else {
        group_at(gs.drop_last(), name)
    }
}

/// A member put in its place, instead of one with its id.
pub open spec fn with_member(ms: Seq<MemberInfo>, m: MemberInfo) -> Seq<MemberInfo>
    decreases ms.len(),
{
    if ms.len() == 0 {
        seq![m]
    } else if ms.last().id == m.id {
        ms.drop_last().push(m)
    } else if text_le(ms.last().id, m.id) {
        ms.push(m)
    } else {
        with_member(ms.drop_last(), m).push(ms.last())
    }
}

/// The group of that name, a new one where there is none.
pub open spec fn group_or_new(gs: Seq<GroupInfo>, name: Seq<char>) -> GroupInfo {
    match group_at(gs, name) {
        Some(i) => gs[i],
        None => GroupInfo { name, generation: 0, members: Seq::empty() },
    }
}

/// A group put back, or behind the others where it is new.
pub open spec fn with_group(gs: Seq<GroupInfo>, g: GroupInfo) -> Seq<GroupInfo> {
    match group_at(gs, g.name) {
        Some(i) => gs.update(i, g),
        None => gs.push(g),
    }
}

/// A group of these members in its next generation.
pub open spec fn rebalanced(
    g: GroupInfo,
    ms: Seq<MemberInfo>,
    counts: Map<Seq<char>, u32>,
) -> GroupInfo {
    GroupInfo {
        generation: (g.generation + 1) as u64,
        members: assigned(ms, counts),
        ..g
    }
}

/// A member id of the coordinator's own.
pub open spec fn minted(n: u64) -> Seq<char> {
    "m-"@ + decimal(n as nat)
}

/// Whether a join is that of a known member.
pub open spec fn is_known(g: GroupInfo, id: Seq<char>) -> bool {
    id.len() > 0 && member_at(g.members, id) is Some
}

/// Whether a join rebalances its group.
pub open spec fn rebalances(g: GroupInfo, id: Seq<char>, topics: Seq<Seq<char>>) -> bool {
    is_known(g, id) ==> g.members[member_at(g.members, id)->0].topics != topics
}

/// A group after a join. A new member bumps the generation and triggers
/// reassignment; a rejoin keeps both unless its subscriptions changed.
pub open spec fn joined(
    g: GroupInfo,
    next: u64,
    id: Seq<char>,
    timeout: u64,
    topics: Seq<Seq<char>>,
    now_ms: u64,
    counts: Map<Seq<char>, u32>,
) -> GroupInfo {
    if is_known(g, id) {
        let i = member_at(g.members, id)->0;
        let m = g.members[i];
        let ms = g.members.update(i, MemberInfo { topics, timeout, last: now_ms, ..m });
        if m.topics != topics {
            rebalanced(g, ms, counts)
        } else {
            GroupInfo { members: ms, ..g }
        }
    } else {
        let m = MemberInfo {
            id: minted(next),
            topics,
            timeout,
            last: now_ms,
            assignment: Seq::empty(),
        };
        rebalanced(g, with_member(g.members, m), counts)
    }
}

/// The id under which a join ends up in its group.
pub open spec fn joined_id(g: GroupInfo, next: u64, id: Seq<char>) -> Seq<char> {
    if is_known(g, id) {
        id
    } else {
        minted(next)
    }
}

/// How a request of a member is judged.
pub open spec fn fence(gs: Seq<GroupInfo>, name: Seq<char>, id: Seq<char>, generation: u64) -> ErrorCode {
    match group_at(gs, name) {
        Some(i) => if member_at(gs[i].members, id) is None {
            ErrorCode::UnknownMember
        } else if generation != gs[i].generation {
            ErrorCode::StaleGeneration
        } else {
            ErrorCode::NoError
        },
        None => ErrorCode::UnknownMember,
    }
}

/// Whether a member has been silent past its session timeout.
pub open spec fn is_silent(m: MemberInfo, now_ms: u64) -> bool {
    now_ms - m.last > m.timeout
}

/// The members that are not silent.
pub open spec fn heard(ms: Seq<MemberInfo>, now_ms: u64) -> Seq<MemberInfo>
    decreases ms.len(),
{
    if ms.len() == 0 {
        Seq::empty()
    } else {
        let head = heard(ms.drop_last(), now_ms);
        if is_silent(ms.last(), now_ms) {
            head
        } else {
            head.push(ms.last())
        }
    }
}

/// A group after its silent members were evicted.
pub open spec fn expired(g: GroupInfo, now_ms: u64, counts: Map<Seq<char>, u32>) -> GroupInfo {
    let ms = heard(g.members, now_ms);
    if ms.len() == g.members.len() {
        g
    } else {
        rebalanced(g, ms, counts)
    }
}

/// The groups after their silent members were evicted.
pub open spec fn all_expired(
    gs: Seq<GroupInfo>,
    now_ms: u64,
    counts: Map<Seq<char>, u32>,
) -> Seq<GroupInfo> {
    Seq::new(gs.len(), |i: int| expired(gs[i], now_ms, counts))
}

/// How many members all groups have.
pub open spec fn member_count(gs: Seq<GroupInfo>) -> nat
    decreases gs.len(),
{
    if gs.len() == 0 {
        0
    } else {
        member_count(gs.drop_last()) + gs.last().members.len()
    }
}

proof fn lemma_member_count(gs: Seq<GroupInfo>, n: int)
    requires
        0 <= n <= gs.len(),
    ensures
        member_count(gs.take(n)) <= member_count(gs),
    decreases gs.len(),
{
    if n < gs.len() {
        assert(gs.drop_last().take(n) =~= gs.take(n));
        lemma_member_count(gs.drop_last(), n);
    } else {
        assert(gs.take(n) =~= gs);
    }
}

/// How many members of the groups are silent.
pub open spec fn silent_count(gs: Seq<GroupInfo>, now_ms: u64) -> nat
    decreases gs.len(),
{
    if gs.len() == 0 {
        0
    } else {
        silent_count(gs.drop_last(), now_ms) + (gs.last().members.len() - heard(
            gs.last().members,
            now_ms,
        ).len()) as nat
    }
}

fn has_topic(v: &Vec<String>, topic: &String) -> (r: bool)
    ensures
        r == texts(v@).contains(topic@),
{
    let ghost all = texts(v@);
    let mut i: usize = 0;
    while i < v.len()
        invariant
            i <= v@.len(),
            all == texts(v@),
            forall|j: int| 0 <= j < i ==> #[trigger] all[j] != topic@,
        decreases v@.len() - i,
    {
        assert(all[i as int] == v@[i as int]@);
        if v[i] == *topic {
            return true;
        }
        i += 1;
    }
    false
}

fn same_texts(a: &Vec<String>, b: &Vec<String>) -> (r: bool)
    ensures
        r == (texts(a@) == texts(b@)),
{
    let ghost x = texts(a@);
    let ghost y = texts(b@);
    if a.len() != b.len() {
        assert(x.len() != y.len());
        return false;
    }
    let mut i: usize = 0;
    while i < a.len()
        invariant
            i <= a@.len(),
            a@.len() == b@.len(),
            x == texts(a@),
            y == texts(b@),
            forall|j: int| 0 <= j < i ==> x[j] == y[j],
        decreases a@.len() - i,
    {
        assert(x[i as int] == a@[i as int]@ && y[i as int] == b@[i as int]@);
        if a[i] != b[i] {
            return false;
        }
        i += 1;
    }
    assert(x =~= y);
    true
}

/// How many partitions a list gives a topic.
pub fn partition_count(counts: &Vec<(String, u32)>, topic: &str) -> (r: Option<u32>)
    ensures
        r == count_of(count_map(counts@), topic@),
{
    let mut i: usize = counts.len();
    assert(counts@.take(i as int) =~= counts@);
    while i > 0
        invariant
            i <= counts@.len(),
            count_of(count_map(counts@.take(i as int)), topic@) == count_of(
                count_map(counts@),
                topic@,
            ),
        decreases i,
    {
        assert(counts@.take(i as int).drop_last() =~= counts@.take(i - 1));
        assert(counts@.take(i as int).last() == counts@[i - 1]);
        if same_text(counts[i - 1].0.as_str(), topic) {
            return Some(counts[i - 1].1);
        }
        i -= 1;
    }
    None
}

pub proof fn lemma_rank(ms: Seq<MemberInfo>, topic: Seq<char>, i: int, j: int)
    requires
        0 <= i <= j,
    ensures
        rank(ms, topic, i) <= rank(ms, topic, j),
        rank(ms, topic, j) - rank(ms, topic, i) <= j - i,
    decreases j,
{
    if i < j {
        lemma_rank(ms, topic, i, j - 1);
    }
}

pub proof fn lemma_chunk(count: nat, n: nat, k: nat)
    requires
        n > 0,
        k <= n,
    ensures
        chunk(count, n, 0) == 0,
        chunk(count, n, n) == count,
        chunk(count, n, k) <= count,
        chunk(count, n, k + 1) == chunk(count, n, k) + count / n + (if k < count % n {
            1nat
        } else {
            0
        }),
{
    let per = count / n;
    let extra = count % n;
    vstd::arithmetic::div_mod::lemma_fundamental_div_mod(count as int, n as int);
    vstd::arithmetic::div_mod::lemma_mod_bound(count as int, n as int);
    assert(0 * per == 0);
    assert(n * per == per * n) by (nonlinear_arith);
    assert((k + 1) * per == k * per + per) by (nonlinear_arith);
    assert(k * per <= n * per) by (nonlinear_arith)
        requires
            k <= n,
    ;
}

pub proof fn lemma_chunk_rises(count: nat, n: nat, j: nat, k: nat)
    requires
        n > 0,
        j <= k <= n,
    ensures
        chunk(count, n, j) <= chunk(count, n, k),
    decreases k,
{
    if j < k {
        lemma_chunk_rises(count, n, j, (k - 1) as nat);
        lemma_chunk(count, n, (k - 1) as nat);
    }
}

pub proof fn lemma_subscriptions(ms: Seq<MemberInfo>, n: int, t: Seq<char>)
    requires
        0 <= n <= ms.len(),
    ensures
        subscriptions(ms, n).contains(t) <==> exists|i: int|
            0 <= i < n && #[trigger] subscribed(ms[i], t),
    decreases n,
{
    if n > 0 {
        lemma_subscriptions(ms, n - 1, t);
        let a = subscriptions(ms, n - 1);
        let b = ms[n - 1].topics;
        let s = a + b;
        if s.contains(t) {
            let k = choose|k: int| 0 <= k < s.len() && s[k] == t;
            if k < a.len() {
                assert(a[k] == t);
                let i = choose|i: int| 0 <= i < n - 1 && #[trigger] subscribed(ms[i], t);
                assert(subscribed(ms[i], t));
            } else {
                assert(b[k - a.len()] == t);
                assert(subscribed(ms[n - 1], t));
            }
        }
        if exists|i: int| 0 <= i < n && #[trigger] subscribed(ms[i], t) {
            let i = choose|i: int| 0 <= i < n && #[trigger] subscribed(ms[i], t);
            if i < n - 1 {
                let k = choose|k: int| 0 <= k < a.len() && a[k] == t;
                assert(s[k] == t);
            } else {
                let k = choose|k: int| 0 <= k < b.len() && b[k] == t;
                assert(s[a.len() + k] == t);
            }
        }
    }
}

pub proof fn lemma_rank_some(ms: Seq<MemberInfo>, topic: Seq<char>, i: int)
    requires
        0 <= i < ms.len(),
        subscribed(ms[i], topic),
    ensures
        rank(ms, topic, ms.len() as int) > 0,
        rank(ms, topic, i) < rank(ms, topic, ms.len() as int),
{
    lemma_rank(ms, topic, i + 1, ms.len() as int);
}

/// The topics that the members subscribe to, in order, each once.
fn all_topics(members: &Vec<Member>) -> (r: Vec<String>)
    ensures
        texts(r@) == topics_of(member_views(members@)),
{
    let ghost ms = member_views(members@);
    let mut r: Vec<String> = Vec::new();
    let mut i: usize = 0;
    assert(texts(r@) =~= Seq::empty());
    while i < members.len()
        invariant
            i <= members@.len(),
            ms == member_views(members@),
            texts(r@) == distinct_texts(subscriptions(ms, i as int)),
        decreases members@.len() - i,
    {
        let topics: &Vec<String> = &members[i].topics;
        let ghost ts = texts(topics@);
        let ghost before = subscriptions(ms, i as int);
        assert(ms[i as int].topics == ts);
        let mut j: usize = 0;
        assert(before + ts.take(0) =~= before);
        while j < topics.len()
            invariant
                j <= topics@.len(),
                ts == texts(topics@),
                texts(r@) == distinct_texts(before + ts.take(j as int)),
            decreases topics@.len() - j,
        {
            add_text(&mut r, &topics[j]);
            proof {
                let longer = before + ts.take(j + 1);
                assert(longer.drop_last() =~= before + ts.take(j as int));
                assert(longer.last() == ts[j as int]);
            }
            j += 1;
        }
        assert(before + ts.take(j as int) =~= subscriptions(ms, i + 1));
        i += 1;
    }
    r
}

fn subscriber_count(members: &Vec<Member>, topic: &String) -> (n: usize)
    ensures
        n == rank(member_views(members@), topic@, members@.len() as int),
{
    let ghost ms = member_views(members@);
    let mut n: usize = 0;
    let mut i: usize = 0;
    while i < members.len()
        invariant
            i <= members@.len(),
            ms == member_views(members@),
            n <= i,
            n == rank(ms, topic@, i as int),
        decreases members@.len() - i,
    {
        assert(ms[i as int] == members@[i as int]@);
        if has_topic(&members[i].topics, topic) {
            n += 1;
        }
        i += 1;
    }
    n
}

/// Hands the partitions of one topic out.
fn share_topic(
    members: &Vec<Member>,
    topic: &String,
    count: u32,
    out: &mut Vec<Vec<(String, u32)>>,
)
    requires
        old(out)@.len() == members@.len(),
        members@.len() <= u32::MAX,
    ensures
        final(out)@.len() == members@.len(),
        forall|i: int|
            0 <= i < members@.len() ==> slots(#[trigger] final(out)@[i]@) == slots(old(out)@[i]@)
                + share(member_views(members@), topic@, count, i),
{
    let ghost ms = member_views(members@);
    let ghost before = out@;
    proof {
        lemma_rank(ms, topic@, 0, ms.len() as int);
    }
    let n: u32 = subscriber_count(members, topic) as u32;
    if n == 0 {
        assert forall|i: int| 0 <= i < members@.len() implies slots(#[trigger] out@[i]@) == slots(
            before[i]@,
        ) + share(ms, topic@, count, i) by {
            if subscribed(ms[i], topic@) {
                lemma_rank_some(ms, topic@, i);
            }
            assert(slots(out@[i]@) + share(ms, topic@, count, i) =~= slots(out@[i]@));
        }
        return;
    }
    let per: u32 = count / n;
    let extra: u32 = count % n;
    let mut next: u32 = 0;
    let mut k: u32 = 0;
    let mut i: usize = 0;
    proof {
        lemma_chunk(count as nat, n as nat, 0);
    }
    while i < members.len()
        invariant
            i <= members@.len(),
            members@.len() <= u32::MAX,
            ms == member_views(members@),
            out@.len() == members@.len(),
            before.len() == members@.len(),
            n > 0,
            n == rank(ms, topic@, ms.len() as int),
            per == count / n,
            extra == count % n,
            k == rank(ms, topic@, i as int),
            k <= i,
            k <= n,
            next == chunk(count as nat, n as nat, k as nat),
            forall|j: int|
                0 <= j < i ==> slots(#[trigger] out@[j]@) == slots(before[j]@) + share(
                    ms,
                    topic@,
                    count,
                    j,
                ),
            forall|j: int| i <= j < members@.len() ==> #[trigger] out@[j] == before[j],
        decreases members@.len() - i,
    {
        assert(ms[i as int] == members@[i as int]@);
        if has_topic(&members[i].topics, topic) {
            proof {
                lemma_rank_some(ms, topic@, i as int);
                lemma_chunk(count as nat, n as nat, k as nat);
                lemma_chunk(count as nat, n as nat, (k + 1) as nat);
            }
            let take: u32 = if k < extra {
                per + 1
            } else {
                per
            };
            let end: u32 = next + take;
            let ghost lo = next;
            let ghost mine = slots(out@[i as int]@);
            let ghost rest = out@;
            let mut row: Vec<(String, u32)> = Vec::new();
            core::mem::swap(&mut row, &mut out[i]);
            while next < end
                invariant
                    lo <= next <= end,
                    row@.len() == mine.len() + next - lo,
                    slots(row@) == mine + Seq::new(
                        (next - lo) as nat,
                        |x: int| (topic@, (lo + x) as u32),
                    ),
                decreases end - next,
            {
                let ghost part = slots(row@);
                row.push((topic.clone(), next));
                assert(slots(row@) =~= part.push((topic@, next)));
                assert(slots(row@) =~= mine + Seq::new(
                    (next + 1 - lo) as nat,
                    |x: int| (topic@, (lo + x) as u32),
                ));
                next += 1;
            }
            out[i] = row;
            assert(slots(out@[i as int]@) =~= slots(before[i as int]@) + share(
                ms,
                topic@,
                count,
                i as int,
            ));
            k += 1;
        } else {
            assert(slots(out@[i as int]@) =~= slots(before[i as int]@) + share(
                ms,
                topic@,
                count,
                i as int,
            ));
        }
        i += 1;
    }
}

/// Range assignment: for each topic, its partitions in order are chunked
/// across the subscribed members in member-id order, remainder to the front.
fn assign(members: &mut Vec<Member>, counts: &Vec<(String, u32)>)
    requires
        old(members)@.len() <= u32::MAX,
    ensures
        member_views(final(members)@) == assigned(member_views(old(members)@), count_map(counts@)),
{
    let ghost ms = member_views(members@);
    let topics: Vec<String> = all_topics(members);
    let ghost ts = texts(topics@);
    let mut out: Vec<Vec<(String, u32)>> = Vec::new();
    let mut i: usize = 0;
    while i < members.len()
        invariant
            i <= members@.len(),
            ts.take(0) =~= Seq::empty(),
            out@.len() == i,
            forall|j: int|
                0 <= j < i ==> slots(#[trigger] out@[j]@) == shares(ms, ts.take(0), count_map(counts@), j),
        decreases members@.len() - i,
    {
        let row: Vec<(String, u32)> = Vec::new();
        assert(slots(row@) =~= Seq::empty());
        out.push(row);
        i += 1;
    }
    let mut t: usize = 0;
    while t < topics.len()
        invariant
            t <= topics@.len(),
            ts == texts(topics@),
            ms == member_views(members@),
            members@.len() <= u32::MAX,
            out@.len() == members@.len(),
            forall|j: int|
                0 <= j < members@.len() ==> slots(#[trigger] out@[j]@) == shares(
                    ms,
                    ts.take(t as int),
                    count_map(counts@),
                    j,
                ),
        decreases topics@.len() - t,
    {
        let ghost before = out@;
        proof {
            assert(ts.take(t + 1).drop_last() =~= ts.take(t as int));
            assert(ts.take(t + 1).last() == topics@[t as int]@);
        }
        match partition_count(counts, topics[t].as_str()) {
            Some(count) => {
                share_topic(members, &topics[t], count, &mut out);
                assert forall|j: int| 0 <= j < members@.len() implies slots(#[trigger] out@[j]@)
                    == shares(ms, ts.take(t + 1), count_map(counts@), j) by {
                    assert(slots(before[j]@) == shares(ms, ts.take(t as int), count_map(counts@), j));
                }
            },
            None => {
                assert forall|j: int| 0 <= j < members@.len() implies slots(#[trigger] out@[j]@)
                    == shares(ms, ts.take(t + 1), count_map(counts@), j) by {
                    assert(shares(ms, ts.take(t + 1), count_map(counts@), j) =~= shares(
                        ms,
                        ts.take(t as int),
                        count_map(counts@),
                        j,
                    ));
                }
            },
        }
        t += 1;
    }
    assert(ts.take(t as int) =~= ts);
    let mut k: usize = 0;
    while k < members.len()
        invariant
            k <= members@.len(),
            ms.len() == members@.len(),
            out@.len() == members@.len(),
            ts == topics_of(ms),
            forall|j: int|
                k <= j < members@.len() ==> slots(#[trigger] out@[j]@) == shares(
                    ms,
                    ts,
                    count_map(counts@),
                    j,
                ),
            forall|j: int|
                0 <= j < members@.len() ==> (#[trigger] members@[j])@ == (if j < k {
                    assigned(ms, count_map(counts@))[j]
                } else {
                    ms[j]
                }),
        decreases members@.len() - k,
    {
        let mut row: Vec<(String, u32)> = Vec::new();
        core::mem::swap(&mut row, &mut out[k]);
        let m: &mut Member = &mut members[k];
        m.assignment = row;
        k += 1;
    }
    assert(member_views(members@) =~= assigned(ms, count_map(counts@)));
}

pub proof fn lemma_member_at(ms: Seq<MemberInfo>, id: Seq<char>)
    ensures
        match member_at(ms, id) {
            Some(i) => 0 <= i < ms.len() && ms[i].id == id,
            None => forall|i: int| 0 <= i < ms.len() ==> (#[trigger] ms[i]).id != id,
        },
    decreases ms.len(),
{
    if ms.len() > 0 && ms.last().id != id {
        let head = ms.drop_last();
        lemma_member_at(head, id);
        if member_at(head, id) is None {
            assert forall|i: int| 0 <= i < ms.len() implies (#[trigger] ms[i]).id != id by {
                if i < head.len() {
                    assert(head[i] == ms[i]);
                }
            }
        }
    }
}

pub proof fn lemma_group_at(gs: Seq<GroupInfo>, name: Seq<char>)
    ensures
        match group_at(gs, name) {
            Some(i) => 0 <= i < gs.len() && gs[i].name == name,
            None => forall|i: int| 0 <= i < gs.len() ==> (#[trigger] gs[i]).name != name,
        },
    decreases gs.len(),
{
    if gs.len() > 0 && gs.last().name != name {
        let head = gs.drop_last();
        lemma_group_at(head, name);
        if group_at(head, name) is None {
            assert forall|i: int| 0 <= i < gs.len() implies (#[trigger] gs[i]).name != name by {
                if i < head.len() {
                    assert(head[i] == gs[i]);
                }
            }
        }
    }
}

/// One of the members has the id.
pub proof fn lemma_member_found(ms: Seq<MemberInfo>, id: Seq<char>, i: int)
    requires
        0 <= i < ms.len(),
        ms[i].id == id,
    ensures
        member_at(ms, id) is Some,
{
    lemma_member_at(ms, id);
}

proof fn lemma_with_member(ms: Seq<MemberInfo>, m: MemberInfo, k: int)
    requires
        ordered(ms),
        0 <= k <= ms.len(),
        forall|i: int|
            k <= i < ms.len() ==> (#[trigger] ms[i]).id != m.id && !text_le(ms[i].id, m.id),
        k > 0 ==> text_le(ms[k - 1].id, m.id),
    ensures
        with_member(ms, m) == (if k > 0 && ms[k - 1].id == m.id {
            ms.update(k - 1, m)
        } else {
            ms.insert(k, m)
        }),
        ordered(with_member(ms, m)),
    decreases ms.len(),
{
    if k == ms.len() {
        if k > 0 && ms[k - 1].id == m.id {
            assert(ms.drop_last().push(m) =~= ms.update(k - 1, m));
        } else {
            assert(ms.push(m) =~= ms.insert(k, m));
        }
    } else {
        let head = ms.drop_last();
        assert(ms[ms.len() - 1] == ms.last());
        lemma_with_member(head, m, k);
        if k > 0 && ms[k - 1].id == m.id {
            assert(head.update(k - 1, m).push(ms.last()) =~= ms.update(k - 1, m));
        } else {
            assert(head.insert(k, m).push(ms.last()) =~= ms.insert(k, m));
        }
    }
    let r = with_member(ms, m);
    assert forall|i: int, j: int| 0 <= i < j < r.len() implies text_le(
        (#[trigger] r[i]).id,
        (#[trigger] r[j]).id,
    ) && r[i].id != r[j].id by {
        if k > 0 && ms[k - 1].id == m.id {
            assert(r[i].id == ms[i].id && r[j].id == ms[j].id);
        } else {
            if i == k {
                assert(r[j] == ms[j - 1]);
                crate::order::lemma_text_le_total(m.id, ms[j - 1].id);
            } else if j == k {
                assert(r[i] == ms[i]);
                assert(text_le(ms[k - 1].id, m.id));
                if i < k - 1 {
                    assert(text_le(ms[i].id, ms[k - 1].id) && ms[i].id != ms[k - 1].id);
                    crate::order::lemma_text_le_trans(ms[i].id, ms[k - 1].id, m.id);
                    if ms[i].id == m.id {
                        crate::order::lemma_text_le_antisym(ms[i].id, ms[k - 1].id);
                    }
                }
            } else {
                let a = if i < k {
                    i
                } else {
                    i - 1
                };
                let b = if j < k {
                    j
                } else {
                    j - 1
                };
                assert(r[i] == ms[a] && r[j] == ms[b]);
                assert(text_le(ms[a].id, ms[b].id));
            }
        }
    }
}

pub proof fn lemma_heard(ms: Seq<MemberInfo>, now_ms: u64)
    ensures
        heard(ms, now_ms).len() <= ms.len(),
        heard(ms, now_ms).len() == ms.len() ==> heard(ms, now_ms) == ms,
        ordered(ms) ==> ordered(heard(ms, now_ms)),
        forall|i: int|
            0 <= i < heard(ms, now_ms).len() ==> ms.contains(#[trigger] heard(ms, now_ms)[i]),
    decreases ms.len(),
{
    if ms.len() > 0 {
        let head = ms.drop_last();
        let h = heard(head, now_ms);
        lemma_heard(head, now_ms);
        assert(ordered(ms) ==> ordered(head)) by {
            assert forall|i: int, j: int| ordered(ms) && 0 <= i < j < head.len() implies text_le(
                (#[trigger] head[i]).id,
                (#[trigger] head[j]).id,
            ) && head[i].id != head[j].id by {
                assert(head[i] == ms[i] && head[j] == ms[j]);
            }
        }
        let r = heard(ms, now_ms);
        assert forall|i: int| 0 <= i < r.len() implies ms.contains(#[trigger] r[i]) by {
            if i < h.len() {
                assert(head.contains(h[i]));
                let k = choose|k: int| 0 <= k < head.len() && head[k] == h[i];
                assert(ms[k] == r[i]);
            } else {
                assert(ms[ms.len() - 1] == r[i]);
            }
        }
        if !is_silent(ms.last(), now_ms) {
            if r.len() == ms.len() {
                assert(head.push(ms.last()) =~= ms);
            }
            if ordered(ms) {
                assert forall|i: int, j: int| 0 <= i < j < r.len() implies text_le(
                    (#[trigger] r[i]).id,
                    (#[trigger] r[j]).id,
                ) && r[i].id != r[j].id by {
                    if j == h.len() {
                        assert(head.contains(h[i]));
                        let k = choose|k: int| 0 <= k < head.len() && head[k] == h[i];
                        assert(ms[k] == r[i] && ms[ms.len() - 1] == r[j]);
                    } else {
                        assert(text_le(h[i].id, h[j].id));
                    }
                }
            }
        }
    }
}

fn copy_slots(v: &Vec<(String, u32)>) -> (r: Vec<(String, u32)>)
    ensures
        slots(r@) == slots(v@),
{
    let mut r: Vec<(String, u32)> = Vec::new();
    let mut i: usize = 0;
    while i < v.len()
        invariant
            i <= v@.len(),
            r@.len() == i,
            forall|j: int| 0 <= j < i ==> slots(r@)[j] == #[trigger] slots(v@)[j],
        decreases v@.len() - i,
    {
        let ghost before = r@;
        r.push((v[i].0.clone(), v[i].1));
        assert forall|j: int| 0 <= j < i + 1 implies slots(r@)[j] == #[trigger] slots(v@)[j] by {
            if j < i {
                assert(slots(before)[j] == slots(v@)[j]);
                assert(r@[j] == before[j]);
            }
        }
        i += 1;
    }
    assert(slots(r@) =~= slots(v@));
    r
}

impl Group {
    fn find(&self, id: &str) -> (r: Option<usize>)
        ensures
            match member_at(self@.members, id@) {
                Some(i) => r matches Some(k) && k == i && 0 <= i < self.members@.len(),
                None => r is None,
            },
    {
        let ghost ms = self@.members;
        let mut i: usize = self.members.len();
        assert(ms.take(i as int) =~= ms);
        while i > 0
            invariant
                i <= self.members@.len(),
                ms == self@.members,
                member_at(ms.take(i as int), id@) == member_at(ms, id@),
            decreases i,
        {
            assert(ms.take(i as int).drop_last() =~= ms.take(i - 1));
            assert(ms.take(i as int).last() == self.members@[i - 1]@);
            if same_text(self.members[i - 1].id.as_str(), id) {
                return Some(i - 1);
            }
            i -= 1;
        }
        None
    }

    fn rebalance(&mut self, counts: &Vec<(String, u32)>)
        requires
            old(self)@.generation < u64::MAX,
            old(self)@.members.len() <= u32::MAX,
        ensures
            final(self)@ == rebalanced(old(self)@, old(self)@.members, count_map(counts@)),
    {
        self.generation = self.generation + 1;
        assign(&mut self.members, counts);
    }

    fn put(&mut self, m: Member)
        requires
            ordered(old(self)@.members),
        ensures
            final(self)@ == (GroupInfo {
                members: with_member(old(self)@.members, m@),
                ..old(self)@
            }),
            ordered(final(self)@.members),
            final(self)@.members.len() <= old(self)@.members.len() + 1,
    {
        let ghost ms = self@.members;
        let mut k: usize = self.members.len();
        while k > 0 && !text_before(self.members[k - 1].id.as_str(), m.id.as_str())
            invariant
                k <= self.members@.len(),
                ms == self@.members,
                forall|i: int|
                    k <= i < ms.len() ==> (#[trigger] ms[i]).id != m@.id && !text_le(
                        ms[i].id,
                        m@.id,
                    ),
            decreases k,
        {
            assert(ms[k - 1] == self.members@[k - 1]@);
            proof {
                crate::order::lemma_text_le_total(m@.id, m@.id);
            }
            k -= 1;
        }
        proof {
            if k > 0 {
                assert(ms[k - 1] == self.members@[k - 1]@);
            }
            lemma_with_member(ms, m@, k as int);
        }
        if k > 0 && self.members[k - 1].id == m.id {
            let ghost v = m@;
            self.members[k - 1] = m;
            assert(self@.members =~= ms.update(k - 1, v));
        } else {
            let ghost v = m@;
            self.members.insert(k, m);
            assert(self@.members =~= ms.insert(k as int, v));
        }
    }

    fn outcome(&self, id: String, at: usize) -> (r: JoinOutcome)
        requires
            at < self@.members.len(),
        ensures
            r.member_id@ == id@,
            r.generation == self@.generation,
            slots(r.assignment@) == self@.members[at as int].assignment,
    {
        let assignment: Vec<(String, u32)> = copy_slots(&self.members[at].assignment);
        JoinOutcome { member_id: id, generation: self.generation, assignment }
    }

    fn join(
        &mut self,
        id: &str,
        next: u64,
        timeout: u64,
        topics: Vec<String>,
        now_ms: u64,
        counts: &Vec<(String, u32)>,
    ) -> (r: (JoinOutcome, bool))
        requires
            ordered(old(self)@.members),
            rebalances(old(self)@, id@, texts(topics@)) ==> group_room(old(self)@),
        ensures
            final(self)@ == joined(
                old(self)@,
                next,
                id@,
                timeout,
                texts(topics@),
                now_ms,
                count_map(counts@),
            ),
            ordered(final(self)@.members),
            r.1 == !is_known(old(self)@, id@),
            r.0.generation == final(self)@.generation,
            r.0.member_id@ == joined_id(old(self)@, next, id@),
            member_at(final(self)@.members, r.0.member_id@) matches Some(i) && slots(
                r.0.assignment@,
            ) == final(self)@.members[i].assignment,
    {
        let ghost g = self@;
        let ghost ts = texts(topics@);
        if id.unicode_len() > 0 {
            if let Some(i) = self.find(id) {
                let ghost old_m = g.members[i as int];
                let same: bool = same_texts(&self.members[i].topics, &topics);
                let m: &mut Member = &mut self.members[i];
                m.topics = topics;
                m.session_timeout_ms = timeout;
                m.last_heartbeat_ms = now_ms;
                let ghost new_m = MemberInfo { topics: ts, timeout, last: now_ms, ..old_m };
                assert(self.members@[i as int]@ == new_m);
                assert(self@.members =~= g.members.update(i as int, new_m));
                if !same {
                    self.rebalance(counts);
                }
                proof {
                    lemma_member_at(g.members, id@);
                    lemma_member_at(self@.members, id@);
                    assert(self@.members[i as int].id == id@);
                    assert(ordered(self@.members)) by {
                        assert forall|a: int, b: int| 0 <= a < b < self@.members.len() implies text_le(
                            (#[trigger] self@.members[a]).id,
                            (#[trigger] self@.members[b]).id,
                        ) && self@.members[a].id != self@.members[b].id by {
                            assert(self@.members[a].id == g.members[a].id);
                            assert(self@.members[b].id == g.members[b].id);
                        }
                    }
                    let at = member_at(self@.members, id@)->0;
                    if at != i {
                        assert(self@.members[at].id == self@.members[i as int].id);
                        if at < i {
                            assert(self@.members[at].id != self@.members[i as int].id);
                        } else {
                            assert(self@.members[i as int].id != self@.members[at].id);
                        }
                    }
                }
                return (self.outcome(id.to_owned(), i), false);
            }
        }
        let mut minted_id: String = "m-".to_owned();
        push_decimal(&mut minted_id, next);
        let m = Member {
            id: minted_id.clone(),
            topics,
            session_timeout_ms: timeout,
            last_heartbeat_ms: now_ms,
            assignment: Vec::new(),
        };
        assert(m@.assignment =~= Seq::empty());
        assert(m@.id == minted(next));
        let ghost v = m@;
        self.put(m);
        let ghost mid = self@.members;
        self.rebalance(counts);
        proof {
            lemma_put_found(g.members, v);
            let k = choose|k: int| 0 <= k < mid.len() && mid[k].id == v.id;
            assert(self@.members[k].id == v.id);
            lemma_member_found(self@.members, v.id, k);
            assert forall|a: int, b: int| 0 <= a < b < self@.members.len() implies text_le(
                (#[trigger] self@.members[a]).id,
                (#[trigger] self@.members[b]).id,
            ) && self@.members[a].id != self@.members[b].id by {
                assert(self@.members[a].id == mid[a].id);
                assert(self@.members[b].id == mid[b].id);
            }
        }
        match self.find(minted_id.as_str()) {
            Some(at) => (self.outcome(minted_id, at), true),
            None => {
                assert(false);
                (
                    JoinOutcome { member_id: minted_id, generation: 0, assignment: Vec::new() },
                    true,
                )
            },
        }
    }

    fn expire(&mut self, now_ms: u64, counts: &Vec<(String, u32)>) -> (n: usize)
        requires
            ordered(old(self)@.members),
            old(self)@.generation < u64::MAX,
            old(self)@.members.len() <= u32::MAX,
        ensures
            final(self)@ == expired(old(self)@, now_ms, count_map(counts@)),
            ordered(final(self)@.members),
            n == old(self)@.members.len() - heard(old(self)@.members, now_ms).len(),
    {
        let ghost g = self@;
        let ghost ms = self@.members;
        let total: usize = self.members.len();
        let ghost mut tail: Seq<MemberInfo> = Seq::empty();
        let mut i: usize = total;
        assert(ms.take(i as int) =~= ms);
        assert(ms.take(i as int) + tail =~= ms);
        assert(heard(ms.take(i as int), now_ms) + tail =~= heard(ms, now_ms));
        while i > 0
            invariant
                i <= total,
                total == ms.len(),
                self.name == old(self).name,
                self.generation == old(self).generation,
                self.members@.len() == i + tail.len(),
                member_views(self.members@) == ms.take(i as int) + tail,
                heard(ms.take(i as int), now_ms) + tail == heard(ms, now_ms),
            decreases i,
        {
            let ghost now = member_views(self.members@);
            let ghost last = ms[i - 1];
            let ghost head = ms.take(i - 1);
            let m: &Member = &self.members[i - 1];
            proof {
                assert(now[i - 1] == last);
                assert(ms.take(i as int).drop_last() =~= head);
                assert(ms.take(i as int).last() == last);
            }
            let silent: bool = now_ms > m.last_heartbeat_ms && now_ms - m.last_heartbeat_ms
                > m.session_timeout_ms;
            if silent {
                self.members.remove(i - 1);
                assert(member_views(self.members@) =~= now.remove(i - 1));
                assert(now.remove(i - 1) =~= head + tail);
            } else {
                proof {
                    let longer = seq![last] + tail;
                    assert(now =~= head + longer);
                    assert(heard(head, now_ms) + longer =~= heard(ms.take(i as int), now_ms)
                        + tail);
                    tail = longer;
                }
            }
            i -= 1;
        }
        proof {
            assert(ms.take(0) + tail =~= tail);
            assert(heard(ms.take(0), now_ms) + tail =~= tail);
            lemma_heard(ms, now_ms);
        }
        let evicted: usize = total - self.members.len();
        if evicted > 0 {
            let ghost mid = self@.members;
            self.rebalance(counts);
            proof {
                assert forall|a: int, b: int| 0 <= a < b < self@.members.len() implies text_le(
                    (#[trigger] self@.members[a]).id,
                    (#[trigger] self@.members[b]).id,
                ) && self@.members[a].id != self@.members[b].id by {
                    assert(self@.members[a].id == mid[a].id);
                    assert(self@.members[b].id == mid[b].id);
                }
            }
        }
        evicted
    }
}

pub proof fn lemma_put_found(ms: Seq<MemberInfo>, m: MemberInfo)
    ensures
        exists|k: int| 0 <= k < with_member(ms, m).len() && with_member(ms, m)[k].id == m.id,
    decreases ms.len(),
{
    let r = with_member(ms, m);
    if ms.len() == 0 || ms.last().id == m.id || text_le(ms.last().id, m.id) {
        assert(r[r.len() - 1].id == m.id);
    } else {
        lemma_put_found(ms.drop_last(), m);
        let h = with_member(ms.drop_last(), m);
        let k = choose|k: int| 0 <= k < h.len() && h[k].id == m.id;
        assert(r[k].id == m.id);
    }
}

proof fn lemma_with_group_ok(gs: Seq<GroupInfo>, g: GroupInfo)
    requires
        groups_ok(gs),
        ordered(g.members),
    ensures
        groups_ok(with_group(gs, g)),
{
    lemma_group_at(gs, g.name);
    let r = with_group(gs, g);
    assert forall|i: int, j: int| 0 <= i < j < r.len() implies (#[trigger] r[i]).name
        != (#[trigger] r[j]).name by {
        if i < gs.len() {
            assert(r[i].name == gs[i].name);
        }
        if j < gs.len() {
            assert(r[j].name == gs[j].name);
        }
    }
}

proof fn lemma_silent_count(gs: Seq<GroupInfo>, i: int, now_ms: u64)
    requires
        0 <= i <= gs.len(),
    ensures
        silent_count(gs.take(i), now_ms) <= silent_count(gs, now_ms),
    decreases gs.len(),
{
    if i < gs.len() {
        lemma_silent_count(gs.drop_last(), i, now_ms);
        assert(gs.drop_last().take(i) =~= gs.take(i));
    } else {
        assert(gs.take(i) =~= gs);
    }
}

impl GroupCoordinator {
    pub open spec fn ok(self) -> bool {
        groups_ok(self@.groups)
    }

    pub fn new() -> (r: Self)
        ensures
            r.ok(),
            r@ == (Groups { groups: Seq::empty(), next: 1 }),
    {
        let r = GroupCoordinator { groups: Vec::new(), next_member: 1 };
        assert(r@.groups =~= Seq::empty());
        r
    }

    fn find(&self, name: &str) -> (r: Option<usize>)
        ensures
            match group_at(self@.groups, name@) {
                Some(i) => r matches Some(k) && k == i && 0 <= i < self.groups@.len(),
                None => r is None,
            },
    {
        let ghost gs = self@.groups;
        let mut i: usize = self.groups.len();
        assert(gs.take(i as int) =~= gs);
        while i > 0
            invariant
                i <= self.groups@.len(),
                gs == self@.groups,
                group_at(gs.take(i as int), name@) == group_at(gs, name@),
            decreases i,
        {
            assert(gs.take(i as int).drop_last() =~= gs.take(i - 1));
            assert(gs.take(i as int).last() == self.groups@[i - 1]@);
            if same_text(self.groups[i - 1].name.as_str(), name) {
                return Some(i - 1);
            }
            i -= 1;
        }
        None
    }

    /// Joins (or rejoins) a group. A new member bumps the generation and
    /// triggers reassignment; a rejoin returns the current state unchanged
    /// unless its subscriptions changed.
    pub fn join(
        &mut self,
        group: &str,
        member_id: &str,
        session_timeout_ms: u32,
        topics: Vec<String>,
        partition_counts: &Vec<(String, u32)>,
        now_ms: u64,
    ) -> (r: JoinOutcome)
        requires
            old(self).ok(),
            rebalances(group_or_new(old(self)@.groups, group@), member_id@, texts(topics@))
                ==> group_room(group_or_new(old(self)@.groups, group@)),
        ensures
            final(self).ok(),
            ({
                let s = old(self)@;
                let g = group_or_new(s.groups, group@);
                let h = joined(
                    g,
                    s.next,
                    member_id@,
                    session_timeout_ms as u64,
                    texts(topics@),
                    now_ms,
                    count_map(partition_counts@),
                );
                &&& final(self)@ == (Groups {
                    groups: with_group(s.groups, h),
                    next: if is_known(g, member_id@) {
                        s.next
                    } else {
                        s.next.wrapping_add(1)
                    },
                })
                &&& r.generation == h.generation
                &&& r.member_id@ == joined_id(g, s.next, member_id@)
                &&& member_at(h.members, r.member_id@) matches Some(i) && slots(r.assignment@)
                    == h.members[i].assignment
            }),
    {
        let ghost s = self@;
        let ghost known = group_at(s.groups, group@) is Some;
        let at: usize = match self.find(group) {
            Some(i) => i,
            None => {
                let fresh = Group { name: group.to_owned(), generation: 0, members: Vec::new() };
                assert(fresh@.members =~= Seq::empty());
                self.groups.push(fresh);
                assert(self@.groups =~= s.groups.push(fresh@));
                self.groups.len() - 1
            },
        };
        let ghost g = group_or_new(s.groups, group@);
        let ghost all = self@.groups;
        proof {
            lemma_group_at(s.groups, group@);
            assert(self.groups@[at as int]@ == g);
            assert(ordered(g.members));
        }
        let next: u64 = self.next_member;
        let slot: &mut Group = &mut self.groups[at];
        let (outcome, fresh): (JoinOutcome, bool) = slot.join(
            member_id,
            next,
            session_timeout_ms as u64,
            topics,
            now_ms,
            partition_counts,
        );
        let ghost h = self.groups@[at as int]@;
        if fresh {
            self.next_member = next.wrapping_add(1);
        }
        proof {
            assert(self@.groups =~= all.update(at as int, h));
            if known {
                assert(self@.groups =~= with_group(s.groups, h));
            } else {
                assert(all.update(at as int, h) =~= s.groups.push(h));
                assert(self@.groups =~= with_group(s.groups, h));
            }
            lemma_with_group_ok(s.groups, h);
        }
        outcome
    }

    /// Refreshes a member's liveness clock, unless the member is unknown or
    /// speaks in another generation than the group's.
    pub fn heartbeat(&mut self, group: &str, member_id: &str, generation: u64, now_ms: u64) -> (r:
        ErrorCode)
        requires
            old(self).ok(),
        ensures
            final(self).ok(),
            r == fence(old(self)@.groups, group@, member_id@, generation),
            final(self)@ == (Groups {
                groups: touched(old(self)@.groups, group@, member_id@, generation, now_ms),
                ..old(self)@
            }),
    {
        let ghost s = self@;
        let i: usize = match self.find(group) {
            Some(i) => i,
            None => {
                return ErrorCode::UnknownMember;
            },
        };
        let g: &Group = &self.groups[i];
        assert(g@ == s.groups[i as int]);
        let k: usize = match g.find(member_id) {
            Some(k) => k,
            None => {
                return ErrorCode::UnknownMember;
            },
        };
        if generation != g.generation {
            return ErrorCode::StaleGeneration;
        }
        let slot: &mut Group = &mut self.groups[i];
        let m: &mut Member = &mut slot.members[k];
        m.last_heartbeat_ms = now_ms;
        proof {
            let g0 = s.groups[i as int];
            let m0 = g0.members[k as int];
            assert(self.groups@[i as int].members@[k as int]@ == MemberInfo { last: now_ms, ..m0 });
            assert(self.groups@[i as int]@.members =~= g0.members.update(
                k as int,
                MemberInfo { last: now_ms, ..m0 },
            ));
            assert(self@.groups =~= touched(s.groups, group@, member_id@, generation, now_ms));
            lemma_touched_ok(s.groups, group@, member_id@, generation, now_ms);
        }
        ErrorCode::NoError
    }

    pub fn leave(&mut self, group: &str, member_id: &str, partition_counts: &Vec<(String, u32)>) -> (r:
        ErrorCode)
        requires
            old(self).ok(),
            left_error(old(self)@.groups, group@, member_id@) == ErrorCode::NoError ==> group_room(
                group_or_new(old(self)@.groups, group@),
            ),
        ensures
            final(self).ok(),
            r == left_error(old(self)@.groups, group@, member_id@),
            final(self)@ == (Groups {
                groups: left(old(self)@.groups, group@, member_id@, count_map(partition_counts@)),
                ..old(self)@
            }),
    {
        let ghost s = self@;
        let i: usize = match self.find(group) {
            Some(i) => i,
            None => {
                return ErrorCode::UnknownMember;
            },
        };
        let g: &Group = &self.groups[i];
        assert(g@ == s.groups[i as int]);
        let k: usize = match g.find(member_id) {
            Some(k) => k,
            None => {
                return ErrorCode::UnknownMember;
            },
        };
        let slot: &mut Group = &mut self.groups[i];
        let ghost before = slot@;
        slot.members.remove(k);
        assert(slot@.members =~= before.members.remove(k as int));
        slot.rebalance(partition_counts);
        proof {
            assert(self@.groups =~= left(s.groups, group@, member_id@, count_map(partition_counts@)));
            lemma_left_ok(s.groups, group@, member_id@, count_map(partition_counts@));
        }
        ErrorCode::NoError
    }

    /// Validates a fenced commit. Empty member_id = unfenced, always allowed.
    pub fn check_commit(&self, group: &str, member_id: &str, generation: u64) -> (r: ErrorCode)
        ensures
            r == commit_fence(self@.groups, group@, member_id@, generation),
    {
        if member_id.unicode_len() == 0 {
            return ErrorCode::NoError;
        }
        match self.find(group) {
            Some(i) => {
                let g: &Group = &self.groups[i];
                assert(g@ == self@.groups[i as int]);
                if g.find(member_id).is_none() {
                    return ErrorCode::UnknownMember;
                }
                if generation != g.generation {
                    return ErrorCode::StaleGeneration;
                }
                ErrorCode::NoError
            },
            None => ErrorCode::UnknownMember,
        }
    }

    /// Whether there is room for another rebalance of a group.
    pub fn has_room_in(&self, group: &str) -> (r: bool)
        ensures
            r == group_room(group_or_new(self@.groups, group@)),
    {
        match self.find(group) {
            Some(i) => {
                let g: &Group = &self.groups[i];
                assert(g@ == self@.groups[i as int]);
                g.generation < u64::MAX && (g.members.len() as u64) < u32::MAX as u64
            },
            None => true,
        }
    }

    /// Whether there is room for another rebalance of each group.
    pub fn has_room(&self) -> (r: bool)
        ensures
            r == groups_room(self@.groups),
    {
        let ghost gs = self@.groups;
        let mut i: usize = 0;
        while i < self.groups.len()
            invariant
                i <= self.groups@.len(),
                gs == self@.groups,
                gs.len() == self.groups@.len(),
                forall|j: int| 0 <= j < i ==> group_room(#[trigger] gs[j]),
            decreases self.groups@.len() - i,
        {
            assert(gs[i as int] == self.groups@[i as int]@);
            if self.groups[i].generation == u64::MAX || self.groups[i].members.len() as u64
                >= u32::MAX as u64 {
                return false;
            }
            i += 1;
        }
        true
    }

    /// Whether the members of all groups can be counted.
    pub fn is_countable(&self, now_ms: u64) -> (r: bool)
        ensures
            r ==> silent_count(self@.groups, now_ms) <= usize::MAX,
            !r ==> member_count(self@.groups) > usize::MAX,
    {
        let ghost gs = self@.groups;
        let mut total: usize = 0;
        let mut i: usize = 0;
        assert(gs.take(0) =~= Seq::empty());
        while i < self.groups.len()
            invariant
                i <= self.groups@.len(),
                gs == self@.groups,
                gs.len() == self.groups@.len(),
                total == member_count(gs.take(i as int)),
                silent_count(gs.take(i as int), now_ms) <= total,
            decreases self.groups@.len() - i,
        {
            proof {
                assert(gs.take(i + 1).drop_last() =~= gs.take(i as int));
                assert(gs.take(i + 1).last() == gs[i as int]);
                assert(gs[i as int] == self.groups@[i as int]@);
                lemma_heard(gs[i as int].members, now_ms);
                lemma_member_count(gs, i + 1);
            }
            let n: usize = self.groups[i].members.len();
            if n > usize::MAX - total {
                return false;
            }
            total = total + n;
            i += 1;
        }
        assert(gs.take(i as int) =~= gs);
        true
    }

    /// Evicts members silent past their session timeout; returns how many
    /// were evicted. Crashed consumers (no Leave) are detected here.
    pub fn expire(&mut self, partition_counts: &Vec<(String, u32)>, now_ms: u64) -> (r: usize)
        requires
            old(self).ok(),
            groups_room(old(self)@.groups),
            silent_count(old(self)@.groups, now_ms) <= usize::MAX,
        ensures
            final(self).ok(),
            final(self)@ == (Groups {
                groups: all_expired(old(self)@.groups, now_ms, count_map(partition_counts@)),
                ..old(self)@
            }),
            r == silent_count(old(self)@.groups, now_ms),
    {
        let ghost gs = self@.groups;
        let mut evicted: usize = 0;
        let mut i: usize = 0;
        assert(gs.take(0) =~= Seq::empty());
        while i < self.groups.len()
            invariant
                i <= self.groups@.len(),
                gs.len() == self.groups@.len(),
                gs == old(self)@.groups,
                self.next_member == old(self).next_member,
                groups_ok(gs),
                groups_room(gs),
                silent_count(gs, now_ms) <= usize::MAX,
                evicted == silent_count(gs.take(i as int), now_ms),
                forall|j: int|
                    0 <= j < i ==> (#[trigger] self.groups@[j])@ == expired(
                        gs[j],
                        now_ms,
                        count_map(partition_counts@),
                    ) && ordered(self.groups@[j]@.members),
                forall|j: int| i <= j < gs.len() ==> (#[trigger] self.groups@[j])@ == gs[j],
            decreases self.groups@.len() - i,
        {
            assert(self.groups@[i as int]@ == gs[i as int]);
            let slot: &mut Group = &mut self.groups[i];
            let n: usize = slot.expire(now_ms, partition_counts);
            proof {
                lemma_silent_count(gs, i + 1, now_ms);
                assert(gs.take(i + 1).drop_last() =~= gs.take(i as int));
                assert(gs.take(i + 1).last() == gs[i as int]);
            }
            evicted += n;
            i += 1;
        }
        proof {
            assert(gs.take(i as int) =~= gs);
            assert(self@.groups =~= all_expired(gs, now_ms, count_map(partition_counts@)));
            let r = self@.groups;
            assert forall|a: int, b: int| 0 <= a < b < r.len() implies (#[trigger] r[a]).name
                != (#[trigger] r[b]).name by {
                assert(r[a].name == gs[a].name && r[b].name == gs[b].name);
            }
            assert forall|a: int| 0 <= a < r.len() implies ordered((#[trigger] r[a]).members) by {
                assert(r[a] == self.groups@[a]@);
            }
        }
        evicted
    }
}

/// The groups after a heartbeat: one that is not fenced refreshes its member's
/// liveness clock.
pub open spec fn touched(
    gs: Seq<GroupInfo>,
    name: Seq<char>,
    id: Seq<char>,
    generation: u64,
    now_ms: u64,
) -> Seq<GroupInfo> {
    if fence(gs, name, id, generation) == ErrorCode::NoError {
        let i = group_at(gs, name)->0;
        let k = member_at(gs[i].members, id)->0;
        gs.update(
            i,
            GroupInfo {
                members: gs[i].members.update(
                    k,
                    MemberInfo { last: now_ms, ..gs[i].members[k] },
                ),
                ..gs[i]
            },
        )
    } else {
        gs
    }
}

proof fn lemma_touched_ok(
    gs: Seq<GroupInfo>,
    name: Seq<char>,
    id: Seq<char>,
    generation: u64,
    now_ms: u64,
)
    requires
        groups_ok(gs),
    ensures
        groups_ok(touched(gs, name, id, generation, now_ms)),
{
    lemma_group_at(gs, name);
    if let Some(i) = group_at(gs, name) {
        lemma_member_at(gs[i].members, id);
        let r = touched(gs, name, id, generation, now_ms);
        assert forall|a: int, b: int| 0 <= a < b < r.len() implies (#[trigger] r[a]).name
            != (#[trigger] r[b]).name by {
            assert(r[a].name == gs[a].name && r[b].name == gs[b].name);
        }
        assert forall|a: int| 0 <= a < r.len() implies ordered((#[trigger] r[a]).members) by {
            assert(ordered(gs[a].members));
            let x = gs[a].members;
            let y = r[a].members;
            assert forall|j: int, k: int| 0 <= j < k < y.len() implies text_le(
                (#[trigger] y[j]).id,
                (#[trigger] y[k]).id,
            ) && y[j].id != y[k].id by {
                assert(y[j].id == x[j].id && y[k].id == x[k].id);
            }
        }
    }
}

/// How a leave is answered.
pub open spec fn left_error(gs: Seq<GroupInfo>, name: Seq<char>, id: Seq<char>) -> ErrorCode {
    match group_at(gs, name) {
        Some(i) => if member_at(gs[i].members, id) is Some {
            ErrorCode::NoError
        } else {
            ErrorCode::UnknownMember
        },
        None => ErrorCode::UnknownMember,
    }
}

/// The groups after a leave: the group goes on without the member, in its next
/// generation.
pub open spec fn left(
    gs: Seq<GroupInfo>,
    name: Seq<char>,
    id: Seq<char>,
    counts: Map<Seq<char>, u32>,
) -> Seq<GroupInfo> {
    match group_at(gs, name) {
        Some(i) => match member_at(gs[i].members, id) {
            Some(k) => gs.update(i, rebalanced(gs[i], gs[i].members.remove(k), counts)),
            None => gs,
        },
        None => gs,
    }
}

proof fn lemma_left_ok(
    gs: Seq<GroupInfo>,
    name: Seq<char>,
    id: Seq<char>,
    counts: Map<Seq<char>, u32>,
)
    requires
        groups_ok(gs),
    ensures
        groups_ok(left(gs, name, id, counts)),
{
    lemma_group_at(gs, name);
    if let Some(i) = group_at(gs, name) {
        lemma_member_at(gs[i].members, id);
        let r = left(gs, name, id, counts);
        assert forall|a: int, b: int| 0 <= a < b < r.len() implies (#[trigger] r[a]).name
            != (#[trigger] r[b]).name by {
            assert(r[a].name == gs[a].name && r[b].name == gs[b].name);
        }
        assert forall|a: int| 0 <= a < r.len() implies ordered((#[trigger] r[a]).members) by {
            assert(ordered(gs[a].members));
            if a == i && member_at(gs[i].members, id) is Some {
                let x = gs[a].members;
                let at = member_at(x, id)->0;
                let y = r[a].members;
                assert forall|j: int, k: int| 0 <= j < k < y.len() implies text_le(
                    (#[trigger] y[j]).id,
                    (#[trigger] y[k]).id,
                ) && y[j].id != y[k].id by {
                    let p = if j < at {
                        j
                    } else {
                        j + 1
                    };
                    let q = if k < at {
                        k
                    } else {
                        k + 1
                    };
                    assert(y[j].id == x[p].id && y[k].id == x[q].id);
                }
            }
        }
    }
}

/// How a commit is judged: one without a member is not fenced.
pub open spec fn commit_fence(
    gs: Seq<GroupInfo>,
    name: Seq<char>,
    id: Seq<char>,
    generation: u64,
) -> ErrorCode {
    if id.len() == 0 {
        ErrorCode::NoError
    } else {
        fence(gs, name, id, generation)
    }
}

} // verus!
