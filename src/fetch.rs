use vstd::prelude::*;

verus! {

/// What to do after one attempt to fetch candidate phrases.
#[derive(Copy, Clone, Debug, PartialEq, Eq, Structural)]
pub enum FetchAction {
    /// The attempt brought phrases: use them.
    Done,
    /// Wait `seconds`, then make attempt number `retry`.
    Wait { retry: u8, seconds: u32 },
    /// Every retry is spent.
    GiveUp,
}

pub open spec fn pow2(k: nat) -> nat
    decreases k,
{
    if k == 0 {
        1
    } else {
        2 * pow2((k - 1) as nat)
    }
}

/// The wait before retry `k`: `2^k` seconds, at most `u32::MAX`.
pub open spec fn backoff_seconds(k: nat) -> int {
    if pow2(k) > u32::MAX {
        u32::MAX as int
    } else {
        pow2(k) as int
    }
}

/// Decides the next step of fetching with exponential backoff, after an
/// attempt made with `retry` retries already spent. An attempt that brought
/// phrases ends the fetch; an empty one is retried after `2^(retry + 1)`
/// seconds, until more than `max_retries` retries would be needed.
pub fn next_fetch_action(retry: u8, max_retries: u8, got_titles: bool) -> (r: FetchAction)
    requires
        retry <= max_retries,
    ensures
        got_titles ==> r == FetchAction::Done,
        !got_titles && retry >= max_retries ==> r == FetchAction::GiveUp,
        !got_titles && retry < max_retries ==> r == (FetchAction::Wait {
            retry: (retry + 1) as u8,
            seconds: backoff_seconds((retry + 1) as nat) as u32,
        }),
{
    if got_titles {
        return FetchAction::Done;
    }
    if retry >= max_retries {
        return FetchAction::GiveUp;
    }
    let next: u8 = retry + 1;
    let mut seconds: u32 = 1;
    let mut k: u8 = 0;
    while k < next
        invariant
            k <= next,
            seconds == backoff_seconds(k as nat),
        decreases next - k,
    {
        proof {
            assert(pow2((k + 1) as nat) == 2 * pow2(k as nat));
        }
        if seconds > u32::MAX / 2 {
            seconds = u32::MAX;
        } else {
            seconds = seconds * 2;
        }
        k += 1;
    }
    FetchAction::Wait { retry: next, seconds }
}

} // verus!
