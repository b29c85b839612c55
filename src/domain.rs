use vstd::prelude::*;
use vstd::multiset::Multiset;

verus! {

/// A participant, known by name.
#[derive(Debug, Clone)]
pub struct Person {
    /// The participant's name.
    pub name: String,
}

/// A copy of `p`, equal to it.
fn copy_person(p: &Person) -> (r: Person)
    ensures
        r == *p,
{
    Person { name: p.name.clone() }
}

/// A team: one leader and the members assigned to it, in assignment order.
#[derive(Debug)]
pub struct Team {
    /// Who leads the team.
    pub leader: Person,
    /// The other members, in the order they were assigned.
    pub member: Vec<Person>,
}

impl View for Team {
    type V = (Person, Seq<Person>);

    open spec fn view(&self) -> (Person, Seq<Person>) {
        (self.leader, self.member@)
    }
}

/// What each team of `ts` is, as leader and members.
pub open spec fn team_views(ts: Seq<Team>) -> Seq<(Person, Seq<Person>)> {
    ts.map_values(|t: Team| t@)
}

/// Everyone in the teams `ts`, leaders and members, counted with multiplicity.
pub open spec fn team_bag(ts: Seq<(Person, Seq<Person>)>) -> Multiset<Person>
    decreases ts.len(),
{
    if ts.len() == 0 {
        Multiset::empty()
    } else {
        team_bag(ts.drop_last()).insert(ts.last().0).add(ts.last().1.to_multiset())
    }
}

/// How many members (leaders aside) the teams `ts` hold in all.
pub open spec fn member_total(ts: Seq<(Person, Seq<Person>)>) -> int
    decreases ts.len(),
{
    if ts.len() == 0 {
        0
    } else {
        member_total(ts.drop_last()) + ts.last().1.len()
    }
}

/// The `n` memberless teams led by the last `n` people of `c`, taken from the end:
/// team `i` is led by the `i`-th person from the end.
pub open spec fn led_by(c: Seq<Person>, n: nat) -> Seq<(Person, Seq<Person>)> {
    Seq::new(n, |i: int| (c[c.len() - 1 - i], Seq::<Person>::empty()))
}

/// Appending `m` to the members of one team adds `m` to the bag of people.
proof fn lemma_bag_assign(ts: Seq<(Person, Seq<Person>)>, j: int, m: Person)
    requires
        0 <= j < ts.len(),
    ensures
        team_bag(ts.update(j, (ts[j].0, ts[j].1.push(m)))) =~= team_bag(ts).insert(m),
    decreases ts.len(),
{
    broadcast use vstd::seq_lib::group_to_multiset_ensures;
    let us = ts.update(j, (ts[j].0, ts[j].1.push(m)));
    if j == ts.len() - 1 {
        assert(us.drop_last() =~= ts.drop_last());
    } else {
        lemma_bag_assign(ts.drop_last(), j, m);
        assert(us.drop_last() =~= ts.drop_last().update(j, (ts[j].0, ts[j].1.push(m))));
    }
}

/// How many of the first `l` pool positions fall to team `j` of `n` when they
/// are dealt out in turn: the positions `k < l` with `k % n == j`.
pub open spec fn share(l: nat, n: nat, j: int) -> nat {
    ((l + n - 1 - j) / (n as int)) as nat
}

/// The teams `ts` after the people of `pool` are dealt out to them in turn,
/// taken one by one from the end of the pool: the `k`-th one taken (from 0)
/// joins team `k % n`, and dealing stops as soon as the pool is empty.
pub open spec fn dealt(ts: Seq<(Person, Seq<Person>)>, pool: Seq<Person>) -> Seq<(Person, Seq<Person>)> {
    Seq::new(
        ts.len(),
        |j: int|
            (
                ts[j].0,
                ts[j].1 + Seq::new(
                    share(pool.len(), ts.len(), j),
                    |t: int| pool[pool.len() - 1 - (j + t * ts.len())],
                ),
            ),
    )
}

/// After `q` full rounds and `r` more people, team `i` has had `q` people, and one
/// more when it is among the first `r`.
spec fn dealt_so_far(q: int, r: int, i: int) -> nat {
    (q + if i < r { 1int } else { 0int }) as nat
}

/// The closed form of `share` once `l = q * n + r` people were dealt.
proof fn lemma_share(l: nat, n: nat, q: int, r: int, i: int)
    requires
        n > 0,
        q >= 0,
        0 <= r <= n,
        0 <= i < n,
        l == q * n + r,
    ensures
        share(l, n, i) == dealt_so_far(q, r, i),
{
    if i < r {
        let x = (l + n - 1 - i) as int;
        assert(x == (q + 1) * n + (r - 1 - i)) by (nonlinear_arith)
            requires
                x == l + n - 1 - i,
                l == q * n + r,
        ;
        vstd::arithmetic::div_mod::lemma_fundamental_div_mod_converse(x, n as int, q + 1, r - 1 - i);
    } else {
        let x = (l + n - 1 - i) as int;
        vstd::arithmetic::div_mod::lemma_fundamental_div_mod_converse(x, n as int, q, r + n - 1 - i);
    }
}

impl Team {
    /// A team led by `leader`, with no members yet.
    pub fn new(leader: Person) -> (r: Team)
        ensures
            r@ == (leader, Seq::<Person>::empty()),
    {
        Team { leader, member: Vec::new() }
    }

    /// Forms `num_of_teams` teams, taking their leaders one by one from the end
    /// of `leader_candidates`; also returns the candidates left over, in order.
    pub fn create_by_leader_candidates(leader_candidates: Vec<Person>, num_of_teams: u8) -> (r: (Vec<Team>, Vec<Person>))
        requires
            leader_candidates@.len() >= num_of_teams,
        ensures
            team_views(r.0@) == led_by(leader_candidates@, num_of_teams as nat),
            r.1@ == leader_candidates@.subrange(0, leader_candidates@.len() - num_of_teams),
            team_bag(team_views(r.0@)).add(r.1@.to_multiset()) == leader_candidates@.to_multiset(),
    {
        let ghost c0 = leader_candidates@;
        let mut leader_candidates = leader_candidates;
        let mut res: Vec<Team> = Vec::new();
        proof {
            assert(team_views(res@) =~= led_by(c0, 0));
            assert(c0.subrange(0, c0.len() as int) =~= c0);
        }
        while res.len() < num_of_teams as usize
            invariant
                res@.len() <= num_of_teams,
                c0.len() >= num_of_teams,
                leader_candidates@ == c0.subrange(0, c0.len() - res@.len()),
                team_views(res@) == led_by(c0, res@.len()),
                team_bag(team_views(res@)).add(leader_candidates@.to_multiset()) == c0.to_multiset(),
            decreases num_of_teams - res@.len(),
        {
            let ghost before = leader_candidates@;
            let ghost old_views = team_views(res@);
            let leader = leader_candidates.pop().unwrap();
            proof {
                broadcast use vstd::seq_lib::group_to_multiset_ensures;
                assert(before =~= leader_candidates@.push(leader));
            }
            res.push(Team::new(leader));
            proof {
                assert(team_views(res@) =~= old_views.push((leader, Seq::<Person>::empty())));
                assert(team_views(res@).drop_last() =~= old_views);
                assert(team_views(res@) =~= led_by(c0, res@.len()));
                assert(leader_candidates@ =~= c0.subrange(0, c0.len() - res@.len()));
                assert(team_bag(team_views(res@)).add(leader_candidates@.to_multiset())
                    =~= team_bag(old_views).add(before.to_multiset()));
            }
        }
        (res, leader_candidates)
    }

    /// Adds `new_member` after the team's current members.
    pub fn assign(&mut self, new_member: Person)
        ensures
            final(self)@ == (old(self)@.0, old(self)@.1.push(new_member)),
    {
        self.member.push(new_member);
    }
}

/// A way of reordering a vector in place.
pub trait VecShuffleStrategy {
    /// Whether this strategy leaves every vector as it is.
    spec fn keeps_order(&self) -> bool;

    /// Reorders `vec` in place; it keeps the same elements.
    fn shuffle<T>(&self, vec: &mut Vec<T>)
        ensures
            final(vec)@.to_multiset() == old(vec)@.to_multiset(),
            self.keeps_order() ==> final(vec)@ == old(vec)@,
    ;
}

/// The teams formed, in order of creation.
#[derive(Debug)]
pub struct Teams {
    team: Vec<Team>,
}

impl View for Teams {
    type V = Seq<(Person, Seq<Person>)>;

    closed spec fn view(&self) -> Seq<(Person, Seq<Person>)> {
        team_views(self.team@)
    }
}

/// The teams that come from shuffled leader candidates `c`, plus the rest of
/// the attendees `normals`, shuffled together into `pool`: the last `n` of `c`
/// lead, and `pool` is dealt out in turn.
pub open spec fn formed(c: Seq<Person>, n: nat, pool: Seq<Person>) -> Seq<(Person, Seq<Person>)> {
    dealt(led_by(c, n), pool)
}

/// The pool left once the last `n` of `c` lead: the other candidates, then `normals`.
pub open spec fn left_over(c: Seq<Person>, n: nat, normals: Seq<Person>) -> Seq<Person> {
    c.subrange(0, c.len() - n) + normals
}

/// Copies of the people that `refs` point to, in order.
fn copy_all(refs: &Vec<&Person>) -> (r: Vec<Person>)
    ensures
        r@ == derefs(refs@),
{
    let mut r: Vec<Person> = Vec::new();
    let mut i: usize = 0;
    while i < refs.len()
        invariant
            i <= refs@.len(),
            r@ == derefs(refs@.subrange(0, i as int)),
        decreases refs@.len() - i,
    {
        let p = copy_person(refs[i]);
        r.push(p);
        i = i + 1;
        proof {
            assert(r@ =~= derefs(refs@.subrange(0, i as int)));
        }
    }
    proof {
        assert(refs@.subrange(0, i as int) =~= refs@);
    }
    r
}

/// Leader candidates and the others together are everyone, counted with multiplicity.
proof fn lemma_split_people(s: Seq<Attendee>)
    ensures
        leaders_of(s).to_multiset().add(others_of(s).to_multiset()) =~= people_of(s).to_multiset(),
    decreases s.len(),
{
    broadcast use vstd::seq_lib::group_to_multiset_ensures;
    if s.len() > 0 {
        lemma_split_people(s.drop_last());
    }
}

/// There are as many people as attendees.
proof fn lemma_people_len(s: Seq<Attendee>)
    ensures
        people_of(s).len() == s.len(),
    decreases s.len(),
{
    if s.len() > 0 {
        lemma_people_len(s.drop_last());
    }
}

impl Teams {
    /// Whether these teams fit `setting`: as many teams as asked for, holding
    /// everyone attending exactly as often as they attend.
    pub open spec fn formed_from(self, setting: TeamsCreationSetting) -> bool {
        self@.len() == setting.num_of_teams && team_bag(self@) == setting.everyone().to_multiset()
    }

    /// Whether `r` is an outcome that `create` may give for `setting` and `strategy`.
    pub open spec fn created<S: VecShuffleStrategy>(
        setting: TeamsCreationSetting,
        strategy: S,
        r: Result<Teams, TeamsCreationSettingError>,
    ) -> bool {
        &&& r is Ok <==> setting.validation() is Ok
        &&& r matches Err(e) ==> setting.validation() == Err::<(), _>(e)
        &&& r matches Ok(t) ==> t@.len() == setting.num_of_teams
        &&& r matches Ok(t) ==> t.formed_from(setting)
        &&& r matches Ok(t) ==> exists|c: Seq<Person>, pool: Seq<Person>|
            c.to_multiset() == setting.candidates().to_multiset()
                && pool.to_multiset() == left_over(c, setting.num_of_teams as nat, setting.normals()).to_multiset()
                && t@ == formed(c, setting.num_of_teams as nat, pool)
        &&& strategy.keeps_order() ==> (r matches Ok(t) ==> t@ == formed(
            setting.candidates(),
            setting.num_of_teams as nat,
            left_over(setting.candidates(), setting.num_of_teams as nat, setting.normals()),
        ))
    }

    /// Forms teams from `setting`: checks it, shuffles the leader candidates and
    /// lets the last `num_of_teams` of them lead, then shuffles the candidates
    /// left over together with the other attendees and deals them out in turn.
    pub fn create<S: VecShuffleStrategy>(setting: TeamsCreationSetting, shuffle_strategy: &S) -> (r: Result<
        Teams,
        TeamsCreationSettingError,
    >)
        ensures
            Teams::created(setting, *shuffle_strategy, r),
    {
        match setting.validate() {
            Err(e) => {
                return Err(e);
            },
            Ok(()) => {},
        }
        let ghost n = setting.num_of_teams as nat;
        let mut leader_candidates = copy_all(&setting.leader_candidates());
        let ghost c_before = leader_candidates@;
        shuffle_strategy.shuffle(&mut leader_candidates);
        let ghost c = leader_candidates@;
        proof {
            broadcast use vstd::seq_lib::group_to_multiset_ensures;
            assert(c_before.len() == c_before.to_multiset().len());
            assert(c.len() == c.to_multiset().len());
        }
        let (teams_vec, mut rest) = Team::create_by_leader_candidates(leader_candidates, setting.num_of_teams);
        let ghost leaders = team_views(teams_vec@);
        let ghost rest0 = rest@;
        let mut normal_attendees = copy_all(&setting.normal_attendees());
        rest.append(&mut normal_attendees);
        let ghost pool0 = rest@;
        shuffle_strategy.shuffle(&mut rest);
        let ghost pool = rest@;
        let teams = Teams::deal(teams_vec, rest);
        proof {
            broadcast use vstd::seq_lib::group_to_multiset_ensures;
            assert(pool0 == left_over(c, n, setting.normals()));
            vstd::seq_lib::lemma_multiset_commutative(rest0, setting.normals());
            lemma_split_people(setting.attendees@);
            if setting.flattened() {
                assert(setting.normals().to_multiset() =~= Multiset::empty());
            }
            assert(team_bag(teams@) =~= setting.everyone().to_multiset());
            assert(teams@.len() == n);
            assert(c.to_multiset() == setting.candidates().to_multiset()
                && pool.to_multiset() == left_over(c, n, setting.normals()).to_multiset()
                && teams@ == formed(c, n, pool));
        }
        Ok(teams)
    }

    /// Deals the people of `pool` out to `teams` in turn, in team order, taking
    /// them one by one from the end of the pool until it is empty.
    pub fn deal(teams: Vec<Team>, pool: Vec<Person>) -> (r: Teams)
        requires
            teams@.len() > 0,
        ensures
            r@ == dealt(team_views(teams@), pool@),
            team_bag(r@) == team_bag(team_views(teams@)).add(pool@.to_multiset()),
    {
        let ghost t0 = team_views(teams@);
        let ghost p0 = pool@;
        let ghost l = p0.len() as int;
        let ghost n = teams@.len() as int;
        let ghost mut q: int = 0;
        let ghost mut r: int = 0;
        let mut teams = teams;
        let mut pool = pool;
        proof {
            assert(p0.subrange(0, l) =~= p0);
            assert forall|i: int| 0 <= i < n implies #[trigger] team_views(teams@)[i]
                == (t0[i].0, t0[i].1 + Seq::new(dealt_so_far(q, r, i), |t: int| p0[l - 1 - (i + t * n)])) by {
                assert(t0[i].1 + Seq::new(dealt_so_far(q, r, i), |t: int| p0[l - 1 - (i + t * n)]) =~= t0[i].1);
            }
        }
        while pool.len() > 0
            invariant
                teams@.len() == n,
                n > 0,
                q >= 0,
                0 <= r <= n,
                q * n + r <= l,
                l == p0.len(),
                pool@ == p0.subrange(0, l - (q * n + r)),
                pool@.len() > 0 ==> r == 0 || r == n,
                forall|i: int| 0 <= i < n ==> #[trigger] team_views(teams@)[i]
                    == (t0[i].0, t0[i].1 + Seq::new(dealt_so_far(q, r, i), |t: int| p0[l - 1 - (i + t * n)])),
                team_bag(team_views(teams@)).add(pool@.to_multiset()) == team_bag(t0).add(p0.to_multiset()),
            decreases pool@.len(),
        {
            proof {
                if r == n {
                    assert((q + 1) * n == q * n + n) by (nonlinear_arith);
                    assert forall|i: int| 0 <= i < n implies dealt_so_far(q, r, i) == dealt_so_far(q + 1, 0, i) by {}
                    q = q + 1;
                    r = 0;
                }
            }
            let mut j: usize = 0;
            while j < teams.len()
                invariant
                    teams@.len() == n,
                    n > 0,
                    q >= 0,
                    0 <= j <= n,
                    r == j,
                    q * n + r <= l,
                    l == p0.len(),
                    pool@ == p0.subrange(0, l - (q * n + r)),
                    forall|i: int| 0 <= i < n ==> #[trigger] team_views(teams@)[i]
                        == (t0[i].0, t0[i].1 + Seq::new(dealt_so_far(q, r, i), |t: int| p0[l - 1 - (i + t * n)])),
                    team_bag(team_views(teams@)).add(pool@.to_multiset()) == team_bag(t0).add(p0.to_multiset()),
                ensures
                    r == n || pool@.len() == 0,
                    0 <= r <= n,
                    q * n + r <= l,
                    pool@ == p0.subrange(0, l - (q * n + r)),
                    forall|i: int| 0 <= i < n ==> #[trigger] team_views(teams@)[i]
                        == (t0[i].0, t0[i].1 + Seq::new(dealt_so_far(q, r, i), |t: int| p0[l - 1 - (i + t * n)])),
                    team_bag(team_views(teams@)).add(pool@.to_multiset()) == team_bag(t0).add(p0.to_multiset()),
                decreases n - j,
            {
                let ghost before = pool@;
                let ghost old_views = team_views(teams@);
                match pool.pop() {
                    Some(m) => {
                        proof {
                            broadcast use vstd::seq_lib::group_to_multiset_ensures;
                            assert(before =~= pool@.push(m));
                            assert(m == p0[l - 1 - (j + q * n)]);
                            lemma_bag_assign(old_views, j as int, m);
                        }
                        teams[j].assign(m);
                        proof {
                            assert(team_views(teams@) =~= old_views.update(j as int, (old_views[j as int].0, old_views[j as int].1.push(m))));
                            assert(pool@ =~= p0.subrange(0, l - (q * n + r + 1)));
                            assert(team_bag(team_views(teams@)).add(pool@.to_multiset())
                                =~= team_bag(old_views).add(before.to_multiset()));
                            r = r + 1;
                            assert forall|i: int| 0 <= i < n implies #[trigger] team_views(teams@)[i]
                                == (t0[i].0, t0[i].1 + Seq::new(dealt_so_far(q, r, i), |t: int| p0[l - 1 - (i + t * n)])) by {
                                if i == j {
                                    assert(t0[i].1 + Seq::new(dealt_so_far(q, r, i), |t: int| p0[l - 1 - (i + t * n)])
                                        =~= (t0[i].1 + Seq::new(dealt_so_far(q, r - 1, i), |t: int| p0[l - 1 - (i + t * n)])).push(m));
                                } else {
                                    assert(dealt_so_far(q, r, i) == dealt_so_far(q, r - 1, i));
                                }
                            }
                        }
                    },
                    None => {
                        break;
                    },
                }
                j = j + 1;
            }
        }
        proof {
            assert forall|i: int| 0 <= i < n implies share(l as nat, n as nat, i) == dealt_so_far(q, r, i) by {
                lemma_share(l as nat, n as nat, q, r, i);
            }
            assert(team_views(teams@) =~= dealt(t0, p0));
            assert(pool@.to_multiset() =~= Multiset::empty()) by {
                broadcast use vstd::seq_lib::group_to_multiset_ensures;
            }
            assert(team_bag(team_views(teams@)) =~= team_bag(team_views(teams@)).add(pool@.to_multiset()));
        }
        Teams { team: teams }
    }

    /// The teams, in order of creation.
    pub fn borrow_vec(&self) -> (r: &Vec<Team>)
        ensures
            team_views(r@) == self@,
    {
        &self.team
    }
}

/// Someone attending, with an optional flag saying whether they may lead a team.
#[derive(Debug)]
pub struct Attendee {
    /// Who attends.
    pub person: Person,
    /// Whether they may lead a team; unset means no.
    pub leader: Option<bool>,
}

impl Attendee {
    /// Whether the attendee may lead a team.
    pub open spec fn leads(self) -> bool {
        self.leader == Some(true)
    }

    /// Returns true when the attendee may lead a team.
    pub fn is_leader(&self) -> (r: bool)
        ensures
            r == self.leads(),
    {
        match self.leader {
            Some(b) => b,
            None => false,
        }
    }
}

/// The people of `s`, in order.
pub open spec fn people_of(s: Seq<Attendee>) -> Seq<Person>
    decreases s.len(),
{
    if s.len() == 0 {
        Seq::empty()
    } else {
        people_of(s.drop_last()).push(s.last().person)
    }
}

/// The people of `s` who may lead a team, in order.
pub open spec fn leaders_of(s: Seq<Attendee>) -> Seq<Person>
    decreases s.len(),
{
    if s.len() == 0 {
        Seq::empty()
    } else if s.last().leads() {
        leaders_of(s.drop_last()).push(s.last().person)
    } else {
        leaders_of(s.drop_last())
    }
}

/// The people of `s` who may not lead a team, in order.
pub open spec fn others_of(s: Seq<Attendee>) -> Seq<Person>
    decreases s.len(),
{
    if s.len() == 0 {
        Seq::empty()
    } else if s.last().leads() {
        others_of(s.drop_last())
    } else {
        others_of(s.drop_last()).push(s.last().person)
    }
}

/// The people that the references of `s` point to.
pub open spec fn derefs(s: Seq<&Person>) -> Seq<Person> {
    s.map_values(|p: &Person| *p)
}

/// Why teams cannot be formed from some settings.
#[derive(Debug, PartialEq, Eq)]
pub enum TeamsCreationSettingError {
    /// No teams were asked for.
    NumOfTeamsZero,
    /// Fewer leader candidates (the first number) than teams (the second).
    LeadersLack(u8, u8),
}

/// The settings that teams are formed from.
#[derive(Debug)]
pub struct TeamsCreationSetting {
    /// Everyone attending, in order.
    pub attendees: Vec<Attendee>,
    /// How many teams to form.
    pub num_of_teams: u8,
    /// When set, every attendee counts as a leader candidate.
    pub flat: Option<bool>,
}

impl TeamsCreationSetting {
    /// Whether every attendee counts as a leader candidate.
    pub open spec fn flattened(self) -> bool {
        self.flat == Some(true)
    }

    /// Everyone attending, in order.
    pub open spec fn everyone(self) -> Seq<Person> {
        people_of(self.attendees@)
    }

    /// Those who may lead a team.
    pub open spec fn candidates(self) -> Seq<Person> {
        if self.flattened() {
            people_of(self.attendees@)
        } else {
            leaders_of(self.attendees@)
        }
    }

    /// Those who may not lead a team.
    pub open spec fn normals(self) -> Seq<Person> {
        if self.flattened() {
            Seq::empty()
        } else {
            others_of(self.attendees@)
        }
    }

    /// Returns true when every attendee counts as a leader candidate.
    pub fn is_flat(&self) -> (r: bool)
        ensures
            r == self.flattened(),
    {
        match self.flat {
            Some(b) => b,
            None => false,
        }
    }

    /// Those who may lead a team, in attendance order: everyone when flat.
    pub fn leader_candidates(&self) -> (r: Vec<&Person>)
        ensures
            derefs(r@) == self.candidates(),
    {
        if self.is_flat() {
            self.all_people()
        } else {
            let mut r: Vec<&Person> = Vec::new();
            let mut i: usize = 0;
            while i < self.attendees.len()
                invariant
                    i <= self.attendees@.len(),
                    derefs(r@) == leaders_of(self.attendees@.subrange(0, i as int)),
                decreases self.attendees@.len() - i,
            {
                proof {
                    assert(self.attendees@.subrange(0, i + 1).drop_last() =~= self.attendees@.subrange(0, i as int));
                }
                let ghost old_r = r@;
                if self.attendees[i].is_leader() {
                    r.push(&self.attendees[i].person);
                    proof {
                        assert(derefs(r@) =~= derefs(old_r).push(self.attendees@[i as int].person));
                    }
                }
                i = i + 1;
            }
            proof {
                assert(self.attendees@.subrange(0, i as int) =~= self.attendees@);
            }
            r
        }
    }

    /// Those who may not lead a team, in attendance order: nobody when flat.
    pub fn normal_attendees(&self) -> (r: Vec<&Person>)
        ensures
            derefs(r@) == self.normals(),
    {
        if self.is_flat() {
            let r: Vec<&Person> = Vec::new();
            proof {
                assert(derefs(r@) =~= Seq::<Person>::empty());
            }
            r
        } else {
            let mut r: Vec<&Person> = Vec::new();
            let mut i: usize = 0;
            while i < self.attendees.len()
                invariant
                    i <= self.attendees@.len(),
                    derefs(r@) == others_of(self.attendees@.subrange(0, i as int)),
                decreases self.attendees@.len() - i,
            {
                proof {
                    assert(self.attendees@.subrange(0, i + 1).drop_last() =~= self.attendees@.subrange(0, i as int));
                }
                let ghost old_r = r@;
                if !self.attendees[i].is_leader() {
                    r.push(&self.attendees[i].person);
                    proof {
                        assert(derefs(r@) =~= derefs(old_r).push(self.attendees@[i as int].person));
                    }
                }
                i = i + 1;
            }
            proof {
                assert(self.attendees@.subrange(0, i as int) =~= self.attendees@);
            }
            r
        }
    }

    /// The outcome of checking the settings: no teams at all, or fewer
    /// leader candidates than teams, is refused.
    pub open spec fn validation(self) -> Result<(), TeamsCreationSettingError> {
        if self.num_of_teams == 0 {
            Err(TeamsCreationSettingError::NumOfTeamsZero)
        } else if self.candidates().len() < self.num_of_teams {
            Err(TeamsCreationSettingError::LeadersLack(self.candidates().len() as u8, self.num_of_teams))
        } else {
            Ok(())
        }
    }

    /// Checks that teams can be formed from these settings.
    pub fn validate(&self) -> (r: Result<(), TeamsCreationSettingError>)
        ensures
            r == self.validation(),
            (r == Err::<(), _>(TeamsCreationSettingError::NumOfTeamsZero)) <==> self.num_of_teams == 0,
            (r matches Err(TeamsCreationSettingError::LeadersLack(_, _)))
                <==> self.candidates().len() < self.num_of_teams,
            r matches Err(TeamsCreationSettingError::LeadersLack(available, required))
                ==> available == self.candidates().len() && required == self.num_of_teams,
    {
        let num_of_leader_candidates = self.leader_candidates().len();
        if self.num_of_teams == 0 {
            Err(TeamsCreationSettingError::NumOfTeamsZero)
        } else if num_of_leader_candidates < self.num_of_teams as usize {
            Err(TeamsCreationSettingError::LeadersLack(num_of_leader_candidates as u8, self.num_of_teams))
        } else {
            Ok(())
        }
    }

    /// Everyone attending, in order.
    pub fn all_people(&self) -> (r: Vec<&Person>)
        ensures
            derefs(r@) == self.everyone(),
    {
        let mut r: Vec<&Person> = Vec::new();
        let mut i: usize = 0;
        while i < self.attendees.len()
            invariant
                i <= self.attendees@.len(),
                derefs(r@) == people_of(self.attendees@.subrange(0, i as int)),
            decreases self.attendees@.len() - i,
        {
            proof {
                assert(self.attendees@.subrange(0, i + 1).drop_last() =~= self.attendees@.subrange(0, i as int));
            }
            let ghost old_r = r@;
            r.push(&self.attendees[i].person);
            i = i + 1;
            proof {
                assert(derefs(r@) =~= derefs(old_r).push(self.attendees@[i - 1].person));
            }
        }
        proof {
            assert(self.attendees@.subrange(0, i as int) =~= self.attendees@);
        }
        r
    }
}

/// Counting everyone in some teams counts each leader once and each member once.
proof fn lemma_bag_len(ts: Seq<(Person, Seq<Person>)>)
    ensures
        team_bag(ts).len() == member_total(ts) + ts.len(),
    decreases ts.len(),
{
    broadcast use vstd::seq_lib::group_to_multiset_ensures;
    if ts.len() > 0 {
        lemma_bag_len(ts.drop_last());
    }
}

/// In teams formed from some settings, the members of all teams together with
/// one leader per team are as many as the attendees.
pub proof fn lemma_head_count(setting: TeamsCreationSetting, teams: Teams)
    requires
        teams.formed_from(setting),
    ensures
        member_total(teams@) + setting.num_of_teams == setting.attendees@.len(),
{
    broadcast use vstd::seq_lib::group_to_multiset_ensures;
    lemma_bag_len(teams@);
    lemma_people_len(setting.attendees@);
}

/// In teams formed from some settings, each person is found, as leader or as
/// member, exactly as many times as they attend: nobody is dropped or doubled.
pub proof fn lemma_everyone_placed_once(setting: TeamsCreationSetting, teams: Teams, p: Person)
    requires
        teams.formed_from(setting),
    ensures
        team_bag(teams@).count(p) == setting.everyone().to_multiset().count(p),
        setting.everyone().contains(p) <==> team_bag(teams@).count(p) > 0,
{
    broadcast use vstd::seq_lib::group_to_multiset_ensures;
}

/// With a strategy that keeps the order, forming teams twice from the same
/// settings gives the same teams.
pub proof fn lemma_order_kept_same_teams<S: VecShuffleStrategy>(
    setting: TeamsCreationSetting,
    strategy: S,
    first: Result<Teams, TeamsCreationSettingError>,
    second: Result<Teams, TeamsCreationSettingError>,
)
    requires
        strategy.keeps_order(),
        Teams::created(setting, strategy, first),
        Teams::created(setting, strategy, second),
    ensures
        first is Ok <==> second is Ok,
        first matches Ok(a) ==> (second matches Ok(b) && a@ == b@),
        first matches Err(e) ==> second == Err::<Teams, _>(e),
{
}

/// Dealt out in turn, a pool leaves the member counts of any two teams at most
/// one apart, and all equal when the pool size is a multiple of the team count.
pub proof fn lemma_balanced(c: Seq<Person>, n: nat, pool: Seq<Person>, i: int, j: int)
    requires
        n > 0,
        c.len() >= n,
        0 <= i < n,
        0 <= j < n,
    ensures
        formed(c, n, pool)[i].1.len() <= formed(c, n, pool)[j].1.len() + 1,
        pool.len() as int % (n as int) == 0 ==> formed(c, n, pool)[i].1.len() == formed(c, n, pool)[j].1.len(),
{
    let l = pool.len();
    let q = l as int / n as int;
    let r = l as int % n as int;
    vstd::arithmetic::div_mod::lemma_fundamental_div_mod(l as int, n as int);
    assert(q >= 0) by {
        vstd::arithmetic::div_mod::lemma_div_pos_is_pos(l as int, n as int);
    }
    lemma_share(l, n, q, r, i);
    lemma_share(l, n, q, r, j);
    assert(formed(c, n, pool)[i].1 =~= Seq::<Person>::empty() + Seq::new(share(l, n, i), |t: int| pool[l - 1 - (i + t * n)]));
    assert(formed(c, n, pool)[j].1 =~= Seq::<Person>::empty() + Seq::new(share(l, n, j), |t: int| pool[l - 1 - (j + t * n)]));
}

} // verus!
