//! Waiting until a file that is being written keeps its size.
use vstd::prelude::*;

verus! {

/// How often a file is looked at before it is given up.
pub const MAX_POLLS: u32 = 60;

/// How often in a row a look must find the size of the look before.
pub const REPEATS_NEEDED: u32 = 4;

/// A file under observation: how often it was looked at, the size found last, and how
/// often in a row that size had been found before.
#[derive(Clone, Copy, Debug, PartialEq, Eq, Structural)]
pub struct SizeWatch {
    pub polls: u32,
    pub last_size: u64,
    pub repeats: u32,
}

/// What follows a look at the file.
#[derive(Clone, Copy, Debug, PartialEq, Eq, Structural)]
pub enum WatchStep {
    /// Wait and look again.
    Again(SizeWatch),
    /// The file keeps its size.
    Stable,
    /// The file is gone or took too long.
    GivenUp,
}

/// The start of an observation.
pub open spec fn watch_start() -> SizeWatch {
    SizeWatch { polls: 0, last_size: 0, repeats: 0 }
}

/// What follows a look that found the given size; `None` if there was nothing to look at.
pub open spec fn watch_step(watch: SizeWatch, size: Option<u64>) -> WatchStep {
    match size {
        None => WatchStep::GivenUp,
        Some(found) => {
            let repeats: int = if found == watch.last_size && found > 0 {
                watch.repeats + 1
            } else {
                0
            };
            if repeats >= REPEATS_NEEDED {
                WatchStep::Stable
            } else if watch.polls + 1 >= MAX_POLLS {
                WatchStep::GivenUp
            } else {
                WatchStep::Again(
                    SizeWatch {
                        polls: (watch.polls + 1) as u32,
                        last_size: found,
                        repeats: repeats as u32,
                    },
                )
            }
        },
    }
}

impl SizeWatch {
    /// Whether the file may be looked at again.
    pub open spec fn in_progress(&self) -> bool {
        self.polls < MAX_POLLS && self.repeats < REPEATS_NEEDED
    }

    pub fn new() -> (watch: Self)
        ensures
            watch == watch_start(),
            watch.in_progress(),
    {
        SizeWatch { polls: 0, last_size: 0, repeats: 0 }
    }

    /// Takes in a look at the file; `None` if there was nothing to look at.
    pub fn poll(self, size: Option<u64>) -> (step: WatchStep)
        requires
            self.in_progress(),
        ensures
            step == watch_step(self, size),
            step matches WatchStep::Again(watch) ==> watch.in_progress(),
    {
        match size {
            None => WatchStep::GivenUp,
            Some(found) => {
                let repeats: u32 = if found == self.last_size && found > 0 {
                    self.repeats + 1
                } else {
                    0
                };
                if repeats >= REPEATS_NEEDED {
                    return WatchStep::Stable;
                }
                let polls = self.polls + 1;
                if polls >= MAX_POLLS {
                    return WatchStep::GivenUp;
                }
                WatchStep::Again(SizeWatch { polls, last_size: found, repeats })
            },
        }
    }
}

/// Where an observation stands after the given looks.
pub open spec fn watched(sizes: Seq<Option<u64>>) -> WatchStep
    decreases sizes.len(),
{
    if sizes.len() == 0 {
        WatchStep::Again(watch_start())
    } else {
        match watched(sizes.drop_last()) {
            WatchStep::Again(watch) => watch_step(watch, sizes.last()),
            over => over,
        }
    }
}

/// Whether the look number `end` was the last of five in a row that found one size, not
/// zero, and no look up to then found nothing.
pub open spec fn settled_at(sizes: Seq<Option<u64>>, end: int) -> bool {
    &&& REPEATS_NEEDED < end <= MAX_POLLS
    &&& end <= sizes.len()
    &&& forall|i: int| 0 <= i < end ==> #[trigger] sizes[i] is Some
    &&& forall|i: int| end - 1 - REPEATS_NEEDED <= i < end ==> #[trigger] sizes[i] == sizes[end - 1]
    &&& sizes[end - 1] != Some(0u64)
}

/// What is known of an observation that goes on after the given looks.
spec fn going_on(watch: SizeWatch, sizes: Seq<Option<u64>>) -> bool {
    let n = sizes.len() as int;
    &&& watch.in_progress()
    &&& watch.polls == n
    &&& forall|i: int| 0 <= i < n ==> #[trigger] sizes[i] is Some
    &&& n == 0 ==> watch.last_size == 0 && watch.repeats == 0
    &&& n > 0 ==> watch.repeats < n
    &&& forall|i: int|
        0 <= i < n && n - 1 - watch.repeats <= i ==> #[trigger] sizes[i] == Some(watch.last_size)
    &&& watch.last_size > 0 && n > watch.repeats + 1 ==> sizes[n - 2 - watch.repeats] != Some(
        watch.last_size,
    )
}

proof fn lemma_watched(sizes: Seq<Option<u64>>)
    ensures
        match watched(sizes) {
            WatchStep::Again(watch) => going_on(watch, sizes) && forall|end: int|
                !settled_at(sizes, end),
            WatchStep::Stable => exists|end: int| settled_at(sizes, end),
            WatchStep::GivenUp => {
                &&& sizes.len() >= MAX_POLLS || exists|i: int|
                    0 <= i < sizes.len() && #[trigger] sizes[i] is None
                &&& forall|end: int| !settled_at(sizes, end)
            },
        },
    decreases sizes.len(),
{
    let n = sizes.len() as int;
    if n > 0 {
        let before = sizes.drop_last();
        lemma_watched(before);
        assert forall|end: int| end < n && settled_at(sizes, end) implies settled_at(
            before,
            end,
        ) by {
            assert forall|i: int| 0 <= i < end implies #[trigger] before[i] is Some by {
                assert(sizes[i] is Some);
            }
            assert forall|i: int|
                end - 1 - REPEATS_NEEDED <= i < end implies #[trigger] before[i] == before[end
                - 1] by {
                assert(sizes[i] == sizes[end - 1]);
            }
        }
        match watched(before) {
            WatchStep::Stable => {
                let end = choose|end: int| settled_at(before, end);
                assert forall|i: int| 0 <= i < end implies #[trigger] sizes[i] is Some by {
                    assert(before[i] is Some);
                }
                assert forall|i: int|
                    end - 1 - REPEATS_NEEDED <= i < end implies #[trigger] sizes[i] == sizes[end
                    - 1] by {
                    assert(before[i] == before[end - 1]);
                }
                assert(settled_at(sizes, end));
            },
            WatchStep::GivenUp => {
                if before.len() < MAX_POLLS {
                    let i = choose|i: int| 0 <= i < before.len() && #[trigger] before[i] is None;
                    assert(sizes[i] is None);
                }
                assert(!settled_at(sizes, n));
            },
            WatchStep::Again(watch) => {
                assert forall|i: int| 0 <= i < n - 1 implies #[trigger] sizes[i] is Some by {
                    assert(before[i] is Some);
                }
                match sizes.last() {
                    None => {
                        assert(sizes[n - 1] is None);
                    },
                    Some(found) => {
                        let repeated = found == watch.last_size && found > 0;
                        if repeated {
                            assert forall|i: int|
                                0 <= i < n && n - 2 - watch.repeats
                                    <= i implies #[trigger] sizes[i] == Some(found) by {
                                if i < n - 1 {
                                    assert(before[i] == Some(watch.last_size));
                                }
                            }
                        } else if n > 1 {
                            assert(before[n - 2] == Some(watch.last_size));
                        }
                        let repeats: int = if repeated {
                            watch.repeats + 1
                        } else {
                            0
                        };
                        if repeats >= REPEATS_NEEDED {
                            assert(settled_at(sizes, n));
                        } else if settled_at(sizes, n) {
                            assert(sizes[n - 2 - repeats] == sizes[n - 1]);
                            assert(found > 0);
                            if repeated {
                                assert(before[n - 1 - 2 - watch.repeats] != Some(found));
                            }
                        }
                    },
                }
            },
        }
    }
}

/// A file is taken as complete exactly when, within the polls allowed, five looks in a
/// row found one size that is not zero, and no look before found nothing.
pub proof fn law_stable_means_settled(sizes: Seq<Option<u64>>)
    ensures
        watched(sizes) is Stable <==> exists|end: int| settled_at(sizes, end),
{
    lemma_watched(sizes);
}

/// An observation ends: after as many looks as are allowed it does not go on.
pub proof fn law_watch_ends(sizes: Seq<Option<u64>>)
    ensures
        sizes.len() >= MAX_POLLS ==> !(watched(sizes) is Again),
{
    lemma_watched(sizes);
}

/// The limits of an observation: five looks in a row, the fifth of them the sixtieth at the
/// latest, must find one size that is not zero, and no look before may find nothing.
pub proof fn law_settled_limits(sizes: Seq<Option<u64>>, end: int)
    ensures
        settled_at(sizes, end) <==> {
            &&& 5 <= end <= 60
            &&& end <= sizes.len()
            &&& forall|i: int| 0 <= i < end ==> #[trigger] sizes[i] is Some
            &&& sizes[end - 5] == sizes[end - 1]
            &&& sizes[end - 4] == sizes[end - 1]
            &&& sizes[end - 3] == sizes[end - 1]
            &&& sizes[end - 2] == sizes[end - 1]
            &&& sizes[end - 1] != Some(0u64)
        },
{
}

/// An observation that goes on has seen fewer than sixty looks, all of which found a file,
/// and it goes on until five in a row agree: given up early is only what was not there.
pub proof fn law_given_up(sizes: Seq<Option<u64>>)
    ensures
        watched(sizes) is GivenUp ==> sizes.len() >= 60 || exists|i: int|
            0 <= i < sizes.len() && #[trigger] sizes[i] is None,
        watched(sizes) is Again ==> sizes.len() < 60 && forall|i: int|
            0 <= i < sizes.len() ==> #[trigger] sizes[i] is Some,
{
    lemma_watched(sizes);
}

} // verus!
