use vstd::prelude::*;

verus! {

/// What happened in one round.
#[derive(Clone, Copy, Debug, PartialEq, Eq, Structural)]
pub enum RoundOutcome {
    BothCooperated,
    LeftCheated,
    RightCheated,
    BothCheated,
}

/// What a player does in one round.
#[derive(PartialEq, Clone, Copy, Structural)]
pub enum Action {
    Cheat,
    Cooperate,
}

/// A player of the game: it chooses an action, then learns what its rival did.
pub trait Agent {
    /// The action this agent would play after learning, from its present state,
    /// that its rival did the actions of `rival`, in order.
    spec fn plan(&self, rival: Seq<Action>) -> Action;

    /// Plays the action of the present state.
    fn next(&self) -> (res: Action)
        ensures
            res == self.plan(Seq::empty()),
    ;

    /// Learns that the rival did `a`: from now on it plays as it planned to
    /// after `a`.
    fn result(&mut self, a: Action)
        ensures
            forall|rival: Seq<Action>| #[trigger]
                final(self).plan(rival) == old(self).plan(seq![a] + rival),
    ;
}

/// The outcome of a round in which the left agent did `left` and the right one `right`.
pub open spec fn outcome_of(left: Action, right: Action) -> RoundOutcome {
    match (left, right) {
        (Action::Cooperate, Action::Cooperate) => RoundOutcome::BothCooperated,
        (Action::Cooperate, Action::Cheat) => RoundOutcome::RightCheated,
        (Action::Cheat, Action::Cooperate) => RoundOutcome::LeftCheated,
        (Action::Cheat, Action::Cheat) => RoundOutcome::BothCheated,
    }
}

/// The points `(left, right)` that one outcome earns: cooperating costs one point
/// and gives the rival three.
pub open spec fn payoff(o: RoundOutcome) -> (int, int) {
    match o {
        RoundOutcome::BothCooperated => (2, 2),
        RoundOutcome::BothCheated => (0, 0),
        RoundOutcome::LeftCheated => (3, -1),
        RoundOutcome::RightCheated => (-1, 3),
    }
}

/// The total points `(left, right)` of a sequence of outcomes.
pub open spec fn score_of(s: Seq<RoundOutcome>) -> (int, int)
    decreases s.len(),
{
    if s.len() == 0 {
        (0, 0)
    } else {
        let before = score_of(s.drop_last());
        let p = payoff(s.last());
        (before.0 + p.0, before.1 + p.1)
    }
}

/// How many rounds of `s` had outcome `o`.
pub open spec fn rounds_with(s: Seq<RoundOutcome>, o: RoundOutcome) -> int {
    s.filter(|x: RoundOutcome| x == o).len() as int
}

/// Whether the left and the right agent cheated in a round with outcome `o`.
pub open spec fn cheaters(o: RoundOutcome) -> (bool, bool) {
    (o == RoundOutcome::LeftCheated || o == RoundOutcome::BothCheated, o
        == RoundOutcome::RightCheated || o == RoundOutcome::BothCheated)
}

/// The outcome of a round names exactly the agents that cheated in it.
pub proof fn lemma_outcome_names_cheaters(left: Action, right: Action)
    ensures
        cheaters(outcome_of(left, right)) == (left == Action::Cheat, right == Action::Cheat),
{
}

/// The scores count the rounds: a round where both cooperate gives each two
/// points, a cheat against a cooperator gives the cheater three and costs the
/// cooperator one, and a round where both cheat gives nothing.
pub proof fn lemma_score_counts_rounds(s: Seq<RoundOutcome>)
    ensures
        score_of(s).0 == 2 * rounds_with(s, RoundOutcome::BothCooperated) + 3 * rounds_with(
            s,
            RoundOutcome::LeftCheated,
        ) - rounds_with(s, RoundOutcome::RightCheated),
        score_of(s).1 == 2 * rounds_with(s, RoundOutcome::BothCooperated) + 3 * rounds_with(
            s,
            RoundOutcome::RightCheated,
        ) - rounds_with(s, RoundOutcome::LeftCheated),
    decreases s.len(),
{
    reveal(Seq::filter);
    if s.len() > 0 {
        lemma_score_counts_rounds(s.drop_last());
    }
}

/// Every running total of `s` fits in an `i32`.
pub open spec fn totals_fit(s: Seq<RoundOutcome>) -> bool {
    forall|k: int|
        0 <= k <= s.len() ==> {
            let t = #[trigger] score_of(s.take(k));
            &&& i32::MIN <= t.0 <= i32::MAX
            &&& i32::MIN <= t.1 <= i32::MAX
        }
}

/// The outcome of a round from what the two agents did.
pub fn round_outcome(left: Action, right: Action) -> (res: RoundOutcome)
    ensures
        res == outcome_of(left, right),
        cheaters(res) == (left == Action::Cheat, right == Action::Cheat),
{
    match (left, right) {
        (Action::Cooperate, Action::Cooperate) => RoundOutcome::BothCooperated,
        (Action::Cooperate, Action::Cheat) => RoundOutcome::RightCheated,
        (Action::Cheat, Action::Cooperate) => RoundOutcome::LeftCheated,
        (Action::Cheat, Action::Cheat) => RoundOutcome::BothCheated,
    }
}

/// A game between two agents that keeps every outcome.
pub struct Game {
    left: Box<dyn Agent>,
    right: Box<dyn Agent>,
    result: Vec<RoundOutcome>,
}

impl Game {
    pub fn new(left: Box<dyn Agent>, right: Box<dyn Agent>) -> (res: Self)
        ensures
            res.seats(left, right),
            res.outcomes() == Seq::<RoundOutcome>::empty(),
    {
        Self { left, right, result: Vec::new() }
    }

    /// The outcomes so far, first round first.
    pub closed spec fn outcomes(&self) -> Seq<RoundOutcome> {
        self.result@
    }

    /// What the left and the right agent play in their present states.
    pub closed spec fn choices(&self) -> (Action, Action) {
        (self.left.plan(Seq::empty()), self.right.plan(Seq::empty()))
    }

    /// Each agent of `self` plays as its counterpart in `before` planned to after
    /// learning what the other agent chose there.
    pub closed spec fn told(&self, before: &Game) -> bool {
        &&& forall|rival: Seq<Action>| #[trigger]
            self.left.plan(rival) == before.left.plan(seq![before.choices().1] + rival)
        &&& forall|rival: Seq<Action>| #[trigger]
            self.right.plan(rival) == before.right.plan(seq![before.choices().0] + rival)
    }

    /// `left` plays on the left and `right` on the right.
    pub closed spec fn seats(&self, left: Box<dyn Agent>, right: Box<dyn Agent>) -> bool {
        self.left == left && self.right == right
    }

    /// Asks both agents for their actions, records the outcome, tells each agent what
    /// its rival did, and returns the outcome.
    pub fn play_round(&mut self) -> (res: RoundOutcome)
        ensures
            res == outcome_of(old(self).choices().0, old(self).choices().1),
            cheaters(res) == (old(self).choices().0 == Action::Cheat, old(self).choices().1
                == Action::Cheat),
            final(self).outcomes() == old(self).outcomes().push(res),
            final(self).told(&*old(self)),
    {
        let la = self.left.next();
        let ra = self.right.next();
        let outcome = round_outcome(la, ra);
        self.result.push(outcome);
        self.left.result(ra);
        self.right.result(la);
        outcome
    }

    /// The total points of both agents.
    fn score(&self) -> (res: (i32, i32))
        requires
            totals_fit(self.outcomes()),
        ensures
            res.0 == score_of(self.outcomes()).0,
            res.1 == score_of(self.outcomes()).1,
    {
        let mut score: (i32, i32) = (0, 0);
        let mut i: usize = 0;
        while i < self.result.len()
            invariant
                i <= self.result@.len(),
                totals_fit(self.result@),
                score.0 == score_of(self.result@.take(i as int)).0,
                score.1 == score_of(self.result@.take(i as int)).1,
            decreases self.result@.len() - i,
        {
            let o = self.result[i];
            let round_score: (i32, i32) = match o {
                RoundOutcome::BothCooperated => (2, 2),
                RoundOutcome::BothCheated => (0, 0),
                RoundOutcome::LeftCheated => (3, -1),
                RoundOutcome::RightCheated => (-1, 3),
            };
            proof {
                let t = self.result@.take(i + 1);
                assert(t.drop_last() =~= self.result@.take(i as int));
                assert(t.last() == o);
                let _ = score_of(t);
            }
            score.0 = score.0 + round_score.0;
            score.1 = score.1 + round_score.1;
            i = i + 1;
        }
        assert(self.result@.take(i as int) =~= self.result@);
        score
    }

    /// The left agent's points; the running totals must fit in an `i32`.
    pub fn left_score(&self) -> (res: i32)
        requires
            totals_fit(self.outcomes()),
        ensures
            res == score_of(self.outcomes()).0,
            res == 2 * rounds_with(self.outcomes(), RoundOutcome::BothCooperated) + 3 * rounds_with(
                self.outcomes(),
                RoundOutcome::LeftCheated,
            ) - rounds_with(self.outcomes(), RoundOutcome::RightCheated),
    {
        proof {
            lemma_score_counts_rounds(self.outcomes());
        }
        self.score().0
    }

    /// The right agent's points; the running totals must fit in an `i32`.
    pub fn right_score(&self) -> (res: i32)
        requires
            totals_fit(self.outcomes()),
        ensures
            res == score_of(self.outcomes()).1,
            res == 2 * rounds_with(self.outcomes(), RoundOutcome::BothCooperated) + 3 * rounds_with(
                self.outcomes(),
                RoundOutcome::RightCheated,
            ) - rounds_with(self.outcomes(), RoundOutcome::LeftCheated),
    {
        proof {
            lemma_score_counts_rounds(self.outcomes());
        }
        self.score().1
    }
}

/// Always cheats.
pub struct CheatingAgent {}

impl Default for CheatingAgent {
    fn default() -> (res: Self) {
        CheatingAgent {  }
    }
}

impl Agent for CheatingAgent {
    open spec fn plan(&self, rival: Seq<Action>) -> Action {
        Action::Cheat
    }

    fn next(&self) -> (res: Action)
        ensures
            res == Action::Cheat,
    {
        Action::Cheat
    }

    fn result(&mut self, a: Action) {
    }
}

/// Always cooperates.
pub struct CooperatingAgent {}

impl Default for CooperatingAgent {
    fn default() -> (res: Self) {
        CooperatingAgent {  }
    }
}

impl Agent for CooperatingAgent {
    open spec fn plan(&self, rival: Seq<Action>) -> Action {
        Action::Cooperate
    }

    fn next(&self) -> (res: Action)
        ensures
            res == Action::Cooperate,
    {
        Action::Cooperate
    }

    fn result(&mut self, a: Action) {
    }
}

/// Cooperates until its rival cheats once, then cheats for ever.
pub struct GrudgerAgent {
    rival_has_cheated: bool,
}

impl GrudgerAgent {
    /// Whether the rival has cheated so far.
    pub closed spec fn holds_grudge(&self) -> bool {
        self.rival_has_cheated
    }
}

impl Default for GrudgerAgent {
    fn default() -> (res: Self)
        ensures
            !res.holds_grudge(),
    {
        GrudgerAgent { rival_has_cheated: false }
    }
}

impl Agent for GrudgerAgent {
    /// Cheats once a grudge is held or the rival is to cheat.
    open spec fn plan(&self, rival: Seq<Action>) -> Action {
        if self.holds_grudge() || rival.contains(Action::Cheat) {
            Action::Cheat
        } else {
            Action::Cooperate
        }
    }

    fn next(&self) -> (res: Action)
        ensures
            res == (if self.holds_grudge() {
                Action::Cheat
            } else {
                Action::Cooperate
            }),
    {
        match self.rival_has_cheated {
            true => Action::Cheat,
            false => Action::Cooperate,
        }
    }

    fn result(&mut self, a: Action)
        ensures
            final(self).holds_grudge() == (old(self).holds_grudge() || a == Action::Cheat),
    {
        if a == Action::Cheat {
            self.rival_has_cheated = true;
        }
        assert forall|rival: Seq<Action>| #[trigger]
            (seq![a] + rival).contains(Action::Cheat) == (a == Action::Cheat || rival.contains(
                Action::Cheat,
            )) by {
            let h = seq![a] + rival;
            if rival.contains(Action::Cheat) {
                let i = choose|i: int| 0 <= i < rival.len() && rival[i] == Action::Cheat;
                assert(h[i + 1] == Action::Cheat);
            }
            if a == Action::Cheat {
                assert(h[0] == Action::Cheat);
            }
            if h.contains(Action::Cheat) && a != Action::Cheat {
                let i = choose|i: int| 0 <= i < h.len() && h[i] == Action::Cheat;
                assert(rival[i - 1] == Action::Cheat);
            }
        }
    }
}

/// Cooperates first, then repeats its rival's last action.
#[derive(Clone, Copy)]
pub struct CopycatAgent {
    rival_last_action: Option<Action>,
}

impl CopycatAgent {
    /// The rival's last action, if any.
    pub closed spec fn last_seen(&self) -> Option<Action> {
        self.rival_last_action
    }
}

impl Default for CopycatAgent {
    fn default() -> (res: Self)
        ensures
            res.last_seen() is None,
    {
        CopycatAgent { rival_last_action: None }
    }
}

impl Agent for CopycatAgent {
    /// The rival's last action, or its present choice when the rival is to do nothing.
    open spec fn plan(&self, rival: Seq<Action>) -> Action {
        if rival.len() > 0 {
            rival.last()
        } else {
            match self.last_seen() {
                None => Action::Cooperate,
                Some(a) => a,
            }
        }
    }

    fn next(&self) -> (res: Action)
        ensures
            res == match self.last_seen() {
                None => Action::Cooperate,
                Some(a) => a,
            },
    {
        match self.rival_last_action {
            None => Action::Cooperate,
            Some(a) => a,
        }
    }

    fn result(&mut self, a: Action)
        ensures
            final(self).last_seen() == Some(a),
    {
        self.rival_last_action = Some(a);
    }
}

/// The opening moves of a detective: cooperate, cheat, cooperate, cooperate.
pub open spec fn opening_move(turn: int) -> Action {
    if turn == 1 {
        Action::Cheat
    } else {
        Action::Cooperate
    }
}

/// Opens with cooperate, cheat, cooperate, cooperate. If its rival cheated during
/// the opening it then plays as a copycat, otherwise it cheats for ever.
pub struct DetectiveAgent {
    turn_num: usize,
    copycat: Option<CopycatAgent>,
}

impl DetectiveAgent {
    /// The number of rounds played, up to `usize::MAX`.
    pub closed spec fn turn(&self) -> nat {
        self.turn_num as nat
    }

    /// The copycat it plays as, once its rival has cheated during the opening.
    pub closed spec fn copycat(&self) -> Option<Option<Action>> {
        match self.copycat {
            None => None,
            Some(c) => Some(c.last_seen()),
        }
    }
}

impl Default for DetectiveAgent {
    fn default() -> (res: Self)
        ensures
            res.turn() == 0,
            res.copycat() is None,
    {
        DetectiveAgent { turn_num: 0, copycat: None }
    }
}

/// What a detective plays after `turn` rounds, given its copycat.
pub open spec fn detective_move(turn: nat, copycat: Option<Option<Action>>) -> Action {
    if turn < 4 {
        opening_move(turn as int)
    } else {
        match copycat {
            None => Action::Cheat,
            Some(None) => Action::Cooperate,
            Some(Some(a)) => a,
        }
    }
}

/// A detective's round count and copycat after it learns that its rival did `a`.
pub open spec fn detective_step(turn: nat, copycat: Option<Option<Action>>, a: Action) -> (
    nat,
    Option<Option<Action>>,
) {
    (
        if turn < usize::MAX {
            turn + 1
        } else {
            turn
        },
        if copycat is Some || (turn < 4 && a == Action::Cheat) {
            Some(Some(a))
        } else {
            None
        },
    )
}

/// A detective's round count and copycat, starting from `turn` and `copycat`, after
/// its rival played `h`, first action first.
pub open spec fn detective_run(turn: nat, copycat: Option<Option<Action>>, h: Seq<Action>) -> (
    nat,
    Option<Option<Action>>,
)
    decreases h.len(),
{
    if h.len() == 0 {
        (turn, copycat)
    } else {
        let s = detective_step(turn, copycat, h[0]);
        detective_run(s.0, s.1, h.drop_first())
    }
}

/// A new detective's round count and copycat after its rival played `h`.
pub open spec fn detective_after(h: Seq<Action>) -> (nat, Option<Option<Action>>)
    decreases h.len(),
{
    if h.len() == 0 {
        (0, None)
    } else {
        let s = detective_after(h.drop_last());
        detective_step(s.0, s.1, h.last())
    }
}

/// The detective's strategy against a rival that played `h`: the opening, then a
/// copy of the rival's last action if the rival cheated during the opening, else cheating.
pub open spec fn detective_strategy(h: Seq<Action>) -> Action {
    if h.len() < 4 {
        opening_move(h.len() as int)
    } else if h.take(4).contains(Action::Cheat) {
        h.last()
    } else {
        Action::Cheat
    }
}

proof fn lemma_detective_state(h: Seq<Action>)
    requires
        h.len() < usize::MAX,
    ensures
        detective_after(h).0 == h.len(),
        detective_after(h).1 == (if h.take(if h.len() < 4 { h.len() as int } else { 4 }).contains(
            Action::Cheat,
        ) {
            Some(Some(h.last()))
        } else {
            None::<Option<Action>>
        }),
    decreases h.len(),
{
    if h.len() > 0 {
        let t = h.drop_last();
        lemma_detective_state(t);
        let n = h.len() as int;
        let pt = if t.len() < 4 { t.len() as int } else { 4 };
        let ph = if n < 4 { n } else { 4 };
        if n <= 4 {
            assert(h.take(ph) =~= t.take(pt).push(h.last()));
            if h.last() == Action::Cheat {
                assert(h.take(ph)[ph - 1] == Action::Cheat);
            }
            if t.take(pt).contains(Action::Cheat) {
                let i = choose|i: int| 0 <= i < t.take(pt).len() && t.take(pt)[i] == Action::Cheat;
                assert(h.take(ph)[i] == Action::Cheat);
            }
            if h.take(ph).contains(Action::Cheat) && h.last() != Action::Cheat {
                let i = choose|i: int| 0 <= i < h.take(ph).len() && h.take(ph)[i] == Action::Cheat;
                assert(i < pt);
                assert(t.take(pt)[i] == Action::Cheat);
            }
        } else {
            assert(h.take(4) =~= t.take(4));
        }
    }
}

/// After any history of its rival shorter than `usize::MAX` rounds, a detective
/// plays its strategy.
pub proof fn lemma_detective_plays_strategy(h: Seq<Action>)
    requires
        h.len() < usize::MAX,
    ensures
        detective_move(detective_after(h).0, detective_after(h).1) == detective_strategy(h),
{
    lemma_detective_state(h);
}

/// Running the steps over `h` and then one more step is running them over `h`
/// followed by that action.
proof fn lemma_run_push(turn: nat, copycat: Option<Option<Action>>, h: Seq<Action>, a: Action)
    ensures
        detective_run(turn, copycat, h.push(a)) == ({
            let s = detective_run(turn, copycat, h);
            detective_step(s.0, s.1, a)
        }),
    decreases h.len(),
{
    if h.len() == 0 {
        assert(h.push(a)[0] == a);
        assert(h.push(a).drop_first() =~= Seq::<Action>::empty());
        assert(detective_run(turn, copycat, h) == (turn, copycat));
        let t = detective_step(turn, copycat, a);
        assert(detective_run(t.0, t.1, Seq::<Action>::empty()) == t);
    } else {
        assert(h.push(a)[0] == h[0]);
        let s = detective_step(turn, copycat, h[0]);
        assert(h.push(a).drop_first() =~= h.drop_first().push(a));
        lemma_run_push(s.0, s.1, h.drop_first(), a);
    }
}

/// A new detective's state after its rival played `h`, whether the steps are
/// taken from the first action or counted back from the last.
proof fn lemma_run_from_start(h: Seq<Action>)
    ensures
        detective_run(0, None, h) == detective_after(h),
    decreases h.len(),
{
    if h.len() > 0 {
        lemma_run_from_start(h.drop_last());
        lemma_run_push(0, None, h.drop_last(), h.last());
        assert(h.drop_last().push(h.last()) =~= h);
    }
}

/// A new detective, told its rival's actions `h` one by one, plays the
/// detective's strategy: the opening, then a copy of the rival's last action if
/// the rival cheated during the opening, else cheating.
pub proof fn lemma_new_detective_plans_strategy(d: DetectiveAgent, h: Seq<Action>)
    requires
        d.turn() == 0,
        d.copycat() is None,
        h.len() < usize::MAX,
    ensures
        d.plan(h) == detective_strategy(h),
{
    lemma_run_from_start(h);
    lemma_detective_plays_strategy(h);
}

/// Whether a new grudger holds a grudge after its rival played `h`.
pub open spec fn grudge_after(h: Seq<Action>) -> bool
    decreases h.len(),
{
    if h.len() == 0 {
        false
    } else {
        grudge_after(h.drop_last()) || h.last() == Action::Cheat
    }
}

/// A grudger holds a grudge exactly when its rival has cheated at least once.
pub proof fn lemma_grudge_iff_cheated(h: Seq<Action>)
    ensures
        grudge_after(h) == h.contains(Action::Cheat),
    decreases h.len(),
{
    if h.len() > 0 {
        let t = h.drop_last();
        lemma_grudge_iff_cheated(t);
        if t.contains(Action::Cheat) {
            let i = choose|i: int| 0 <= i < t.len() && t[i] == Action::Cheat;
            assert(h[i] == Action::Cheat);
        }
        if h.contains(Action::Cheat) && h.last() != Action::Cheat {
            let i = choose|i: int| 0 <= i < h.len() && h[i] == Action::Cheat;
            assert(t[i] == Action::Cheat);
        }
    }
}

impl Agent for DetectiveAgent {
    /// The move after running `detective_step` over `rival` from the present state.
    open spec fn plan(&self, rival: Seq<Action>) -> Action {
        let s = detective_run(self.turn(), self.copycat(), rival);
        detective_move(s.0, s.1)
    }

    fn next(&self) -> (res: Action)
        ensures
            res == detective_move(self.turn(), self.copycat()),
    {
        match self.turn_num {
            0 => Action::Cooperate,
            1 => Action::Cheat,
            2 => Action::Cooperate,
            3 => Action::Cooperate,
            _ => match &self.copycat {
                None => Action::Cheat,
                Some(c) => c.next(),
            },
        }
    }

    /// Records the rival's action `a`: a cheat during the opening starts the copycat,
    /// and a started copycat sees every action.
    fn result(&mut self, a: Action)
        ensures
            (final(self).turn(), final(self).copycat()) == detective_step(
                old(self).turn(),
                old(self).copycat(),
                a,
            ),
    {
        let opening = self.turn_num < 4;
        match (opening, a, &mut self.copycat) {
            (true, Action::Cheat, None) => {
                let mut cc = CopycatAgent::default();
                cc.result(Action::Cheat);
                self.copycat = Some(cc);
            },
            (true, _, Some(c)) => {
                c.result(a);
            },
            (true, Action::Cooperate, None) => {},
            (false, _, Some(c)) => c.result(a),
            _ => {},
        }
        if self.turn_num < usize::MAX {
            self.turn_num = self.turn_num + 1;
        }
        assert forall|rival: Seq<Action>| #[trigger] self.plan(rival) == old(self).plan(
            seq![a] + rival,
        ) by {
            assert((seq![a] + rival).drop_first() =~= rival);
        }
    }
}

} // verus!
