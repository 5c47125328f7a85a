//! Spaced-repetition bookkeeping: ratings, card states, and the counters and
//! due times that a review sets. The memory model itself (difficulty and
//! stability, which are real numbers) is computed by the caller.

use vstd::prelude::*;
use crate::text::{dec, extend_str, push_dec, string_of};
use crate::vault::VaultError;

verus! {

/// Seconds in a day.
pub const DAY_SECS: i64 = 86400;

/// Delay before a forgotten card is shown again, in seconds.
pub const RELEARN_SECS: i64 = 600;

/// Rating given by the user after a review: 1 Again (forgot), 2 Hard, 3 Good, 4 Easy.
#[derive(Debug, Clone, Copy, PartialEq, Eq, Structural)]
pub enum Rating {
    Again,
    Hard,
    Good,
    Easy,
}

impl Rating {
    /// The number of the rating, 1 to 4.
    pub open spec fn value(self) -> u8 {
        match self {
            Rating::Again => 1,
            Rating::Hard => 2,
            Rating::Good => 3,
            Rating::Easy => 4,
        }
    }

    /// The rating numbered `v`, for `v` in 1..=4.
    pub fn from_u8(v: u8) -> (r: Option<Rating>)
        ensures
            r is Some <==> 1 <= v <= 4,
            r matches Some(x) ==> x.value() == v,
    {
        match v {
            1 => Some(Rating::Again),
            2 => Some(Rating::Hard),
            3 => Some(Rating::Good),
            4 => Some(Rating::Easy),
            _ => None,
        }
    }

    /// The number of the rating.
    pub fn as_u8(&self) -> (v: u8)
        ensures
            v == self.value(),
    {
        match self {
            Rating::Again => 1,
            Rating::Hard => 2,
            Rating::Good => 3,
            Rating::Easy => 4,
        }
    }

    /// Whether the card was recalled (any rating but Again).
    pub fn is_correct(&self) -> (b: bool)
        ensures
            b == (*self != Rating::Again),
    {
        !matches!(self, Rating::Again)
    }
}

/// State of a card in the learning pipeline.
#[derive(Debug, Clone, Copy, PartialEq, Eq, Structural)]
pub enum CardState {
    New,
    Learning,
    Review,
    Relearning,
}

pub open spec fn state_name(s: CardState) -> Seq<char> {
    match s {
        CardState::New => seq!['n', 'e', 'w'],
        CardState::Learning => seq!['l', 'e', 'a', 'r', 'n', 'i', 'n', 'g'],
        CardState::Review => seq!['r', 'e', 'v', 'i', 'e', 'w'],
        CardState::Relearning => seq!['r', 'e', 'l', 'e', 'a', 'r', 'n', 'i', 'n', 'g'],
    }
}

/// The state a stored name stands for; an unknown name stands for `New`.
pub open spec fn state_of_name(n: Seq<char>) -> CardState {
    if n == state_name(CardState::Learning) {
        CardState::Learning
    } else if n == state_name(CardState::Review) {
        CardState::Review
    } else if n == state_name(CardState::Relearning) {
        CardState::Relearning
    } else {
        CardState::New
    }
}

impl CardState {
    /// The name under which the state is stored: `new`, `learning`, `review` or `relearning`.
    pub fn as_str(&self) -> (s: &'static str)
        ensures
            s@ == state_name(*self),
    {
        match self {
            CardState::New => {
                proof {
                    reveal_strlit("new");
                }
                "new"
            },
            CardState::Learning => {
                proof {
                    reveal_strlit("learning");
                }
                "learning"
            },
            CardState::Review => {
                proof {
                    reveal_strlit("review");
                }
                "review"
            },
            CardState::Relearning => {
                proof {
                    reveal_strlit("relearning");
                }
                "relearning"
            },
        }
    }

    /// The state stored under `name`; any other name reads as `New`.
    pub fn from_name(name: &str) -> (s: CardState)
        ensures
            s == state_of_name(name@),
    {
        proof {
            reveal_strlit("learning");
            reveal_strlit("review");
            reveal_strlit("relearning");
            assert("learning"@ =~= state_name(CardState::Learning));
            assert("review"@ =~= state_name(CardState::Review));
            assert("relearning"@ =~= state_name(CardState::Relearning));
        }
        if crate::text::str_eq(name, "learning") {
            CardState::Learning
        } else if crate::text::str_eq(name, "review") {
            CardState::Review
        } else if crate::text::str_eq(name, "relearning") {
            CardState::Relearning
        } else {
            CardState::New
        }
    }
}

/// The counters and due time of a card's schedule (its memory model aside).
#[derive(Debug, Clone, Copy, PartialEq, Eq, Structural)]
pub struct ScheduleCounters {
    pub reps: i64,
    pub lapses: i64,
    pub last_review_at: Option<i64>,
    pub next_review_at: i64,
    pub state: CardState,
}

/// Days until the next review after a first review: 0 for Again, 1 for Hard
/// and Good, 4 for Easy.
pub open spec fn first_interval_days(r: Rating) -> i64 {
    match r {
        Rating::Again => 0,
        Rating::Hard => 1,
        Rating::Good => 1,
        Rating::Easy => 4,
    }
}

/// Interval in days after a first review.
pub fn first_review_interval_days(rating: Rating) -> (d: i64)
    ensures
        d == first_interval_days(rating),
{
    match rating {
        Rating::Again => 0,
        Rating::Hard => 1,
        Rating::Good => 1,
        Rating::Easy => 4,
    }
}

/// The schedule of a card reviewed for the first time at `now`: one repetition,
/// due after the first interval, learning after Again and in review otherwise.
pub fn first_review_counters(rating: Rating, now: i64) -> (c: ScheduleCounters)
    requires
        now + first_interval_days(rating) * DAY_SECS <= i64::MAX,
    ensures
        c.reps == 1,
        c.lapses == 0,
        c.last_review_at == Some(now),
        c.next_review_at == now + first_interval_days(rating) * DAY_SECS,
        c.state == (if rating == Rating::Again {
            CardState::Learning
        } else {
            CardState::Review
        }),
{
    let days = first_review_interval_days(rating);
    ScheduleCounters {
        reps: 1,
        lapses: 0,
        last_review_at: Some(now),
        next_review_at: now + days * DAY_SECS,
        state: if rating.is_correct() {
            CardState::Review
        } else {
            CardState::Learning
        },
    }
}

/// The schedule of a card reviewed again at `now`. A forgotten card (Again)
/// counts a lapse, is relearned and is due ten minutes later; otherwise it
/// stays in review and is due `interval_secs` later.
pub fn review_counters(reps: i64, lapses: i64, rating: Rating, now: i64, interval_secs: i64) -> (c:
    ScheduleCounters)
    requires
        reps < i64::MAX,
        lapses < i64::MAX,
        now <= i64::MAX - RELEARN_SECS,
        rating != Rating::Again ==> 0 <= interval_secs && now + interval_secs <= i64::MAX,
    ensures
        c.reps == reps + 1,
        c.lapses == (if rating == Rating::Again {
            lapses + 1
        } else {
            lapses as int
        }),
        c.last_review_at == Some(now),
        c.next_review_at == (if rating == Rating::Again {
            now + RELEARN_SECS
        } else {
            now + interval_secs
        }) as int,
        c.state == (if rating == Rating::Again {
            CardState::Relearning
        } else {
            CardState::Review
        }),
{
    if rating.is_correct() {
        ScheduleCounters {
            reps: reps + 1,
            lapses,
            last_review_at: Some(now),
            next_review_at: now + interval_secs,
            state: CardState::Review,
        }
    } else {
        ScheduleCounters {
            reps: reps + 1,
            lapses: lapses + 1,
            last_review_at: Some(now),
            next_review_at: now + RELEARN_SECS,
            state: CardState::Relearning,
        }
    }
}

/// The counters of a card that has never been reviewed: due at once.
pub fn new_card_counters(now: i64) -> (c: ScheduleCounters)
    ensures
        c == (ScheduleCounters {
            reps: 0,
            lapses: 0,
            last_review_at: None,
            next_review_at: now,
            state: CardState::New,
        }),
{
    ScheduleCounters { reps: 0, lapses: 0, last_review_at: None, next_review_at: now, state: CardState::New }
}

/// The rating numbered `v`, or the error a review with another number gets.
pub fn rating_of(v: u8) -> (r: Result<Rating, VaultError>)
    ensures
        1 <= v <= 4 ==> (r matches Ok(x) && x.value() == v),
        !(1 <= v <= 4) ==> (r matches Err(VaultError::Other(m)) && m@ == "Invalid rating: "@ + dec(
            v as nat,
        ) + " (must be 1-4)"@),
{
    match Rating::from_u8(v) {
        Some(x) => Ok(x),
        None => {
            let mut m: Vec<char> = Vec::new();
            extend_str(&mut m, "Invalid rating: ");
            push_dec(&mut m, v as u64);
            extend_str(&mut m, " (must be 1-4)");
            Err(VaultError::Other(string_of(&m)))
        },
    }
}

/// The counters after reviewing a card with `reps` repetitions and `lapses`
/// lapses at `now`: a card never reviewed gets its first schedule; another
/// is rescheduled, `interval_secs` later when it was recalled.
pub fn review_schedule(reps: i64, lapses: i64, rating: Rating, now: i64, interval_secs: i64) -> (c: ScheduleCounters)
    requires
        reps == 0 ==> now + first_interval_days(rating) * DAY_SECS <= i64::MAX,
        reps != 0 ==> reps < i64::MAX && lapses < i64::MAX && now <= i64::MAX - RELEARN_SECS,
        reps != 0 && rating != Rating::Again ==> 0 <= interval_secs && now + interval_secs <= i64::MAX,
    ensures
        reps == 0 ==> c == (ScheduleCounters {
            reps: 1,
            lapses: 0,
            last_review_at: Some(now),
            next_review_at: (now + first_interval_days(rating) * DAY_SECS) as i64,
            state: if rating == Rating::Again {
                CardState::Learning
            } else {
                CardState::Review
            },
        }),
        reps != 0 ==> c == (ScheduleCounters {
            reps: (reps + 1) as i64,
            lapses: if rating == Rating::Again {
                (lapses + 1) as i64
            } else {
                lapses
            },
            last_review_at: Some(now),
            next_review_at: if rating == Rating::Again {
                (now + RELEARN_SECS) as i64
            } else {
                (now + interval_secs) as i64
            },
            state: if rating == Rating::Again {
                CardState::Relearning
            } else {
                CardState::Review
            },
        }),
{
    if reps == 0 {
        first_review_counters(rating, now)
    } else {
        review_counters(reps, lapses, rating, now, interval_secs)
    }
}

// ---------------------------------------------------------------------------
// Laws
// ---------------------------------------------------------------------------

/// Reading a rating back from its number gives the rating.
pub proof fn law_rating_roundtrip(r: Rating)
    ensures
        1 <= r.value() <= 4,
        forall|x: Rating| #[trigger] x.value() == r.value() ==> x == r,
{
}

/// Reading a state back from its stored name gives the state.
pub proof fn law_state_name_roundtrip(s: CardState)
    ensures
        state_of_name(state_name(s)) == s,
{
    let n = state_name(s);
    assert(state_name(CardState::Learning) =~= seq!['l', 'e', 'a', 'r', 'n', 'i', 'n', 'g']);
    if s != CardState::Learning {
        assert(n.len() != 8 || n[0] != 'l');
    }
    if s != CardState::Review {
        assert(n.len() != 6 || n[2] != 'v');
    }
    if s != CardState::Relearning {
        assert(n.len() != 10);
    }
}

} // verus!
