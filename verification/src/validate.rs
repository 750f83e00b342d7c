//! The checks that a new entry passes before it is stored: what was typed
//! for boss, income, time and game is trimmed, read and held against the
//! rules, and comes out as a draft or as the reason for turning it down.

use vstd::prelude::*;
use vstd::string::StringExecFns;
use crate::calendar::Date;
use crate::numeral::{decimal, push_decimal};
use crate::reading::{read_decimal, reading, Reading};
use crate::text::{trim_text, trimmed};

verus! {

/// The income above which an entry is turned down unless another ceiling is
/// given, in whole yuan.
pub const DEFAULT_CEILING: u32 = 100_000;

/// The decimal places to which an income is read: fen.
pub const INCOME_PLACES: u8 = 2;

/// The decimal places to which a time is read: tenths of an hour.
pub const DURATION_PLACES: u8 = 1;

/// Why an entry was turned down.
#[derive(Debug, Clone, Copy, PartialEq, Eq, Structural)]
pub enum ValidationError {
    /// No boss was named and the income is no amount of a fen or more.
    MissingBoth,
    /// No boss was named.
    MissingBoss,
    /// The income is no amount of a fen or more.
    InvalidAmount,
    /// The income is above the ceiling.
    OverCeiling,
    /// A time was given that is no number above zero, or one beyond what a
    /// record can hold.
    InvalidDuration,
}

/// An entry that passed the checks and waits to be stored.
#[derive(Debug, Clone)]
pub struct Draft {
    /// The day, as `YYYY-MM-DD`.
    pub date: String,
    /// Who paid, without blanks around the name.
    pub boss: String,
    /// The amount in fen, rounded to the nearest fen.
    pub income: i64,
    /// The time spent in tenths of an hour, rounded to the nearest tenth,
    /// where one was given.
    pub duration: Option<u32>,
    /// What was played, without blanks around it, where anything was given.
    pub game: Option<String>,
    /// Whether the entry is paid out.
    pub settled: bool,
}

/// A draft as plain mathematical values.
pub ghost struct DraftView {
    pub date: Seq<char>,
    pub boss: Seq<char>,
    pub income: int,
    pub duration: Option<nat>,
    pub game: Option<Seq<char>>,
    pub settled: bool,
}

impl View for Draft {
    type V = DraftView;

    open spec fn view(&self) -> DraftView {
        DraftView {
            date: self.date@,
            boss: self.boss@,
            income: self.income as int,
            duration: match self.duration {
                Some(d) => Some(d as nat),
                None => None,
            },
            game: match self.game {
                Some(g) => Some(g@),
                None => None,
            },
            settled: self.settled,
        }
    }
}

/// What was typed for a new entry, as plain mathematical values.
pub ghost struct Typed {
    pub boss: Seq<char>,
    pub income: Seq<char>,
    pub duration: Seq<char>,
    pub game: Seq<char>,
}

impl Typed {
    /// What the income field says, in fen.
    pub open spec fn amount(self) -> Reading {
        reading(trimmed(self.income), INCOME_PLACES as nat)
    }

    /// What the time field says, in tenths of an hour.
    pub open spec fn time(self) -> Reading {
        reading(trimmed(self.duration), DURATION_PLACES as nat)
    }

    /// Whether no boss is named.
    pub open spec fn boss_missing(self) -> bool {
        trimmed(self.boss).len() == 0
    }

    /// Whether the income is an amount of at least one fen, once rounded to
    /// the nearest fen.
    pub open spec fn income_counts(self) -> bool {
        match self.amount() {
            Reading::Malformed => false,
            Reading::Huge { negative } => !negative,
            Reading::Value { negative, .. } => !negative && self.amount().rounded() > 0,
        }
    }

    /// Whether the income, rounded to the nearest fen, is above `ceiling`
    /// yuan.
    pub open spec fn income_over(self, ceiling: nat) -> bool {
        self.amount() is Huge || self.amount().rounded() > ceiling * 100
    }

    /// Whether a time is given that cannot be taken.
    pub open spec fn time_refused(self) -> bool {
        trimmed(self.duration).len() > 0 && !(self.time().is_positive() && self.time()
            is Value && self.time().rounded() <= u32::MAX)
    }

    /// Why the entry is turned down under a ceiling of `ceiling` yuan, if
    /// it is. The rules are held in this order: boss and income together,
    /// then the ceiling, then the time.
    pub open spec fn fault(self, ceiling: nat) -> Option<ValidationError> {
        if self.boss_missing() && !self.income_counts() {
            Some(ValidationError::MissingBoth)
        } else if self.boss_missing() {
            Some(ValidationError::MissingBoss)
        } else if !self.income_counts() {
            Some(ValidationError::InvalidAmount)
        } else if self.income_over(ceiling) {
            Some(ValidationError::OverCeiling)
        } else if self.time_refused() {
            Some(ValidationError::InvalidDuration)
        } else {
            None
        }
    }

    /// The draft that the entry becomes where it is not turned down.
    pub open spec fn draft(self, date: Seq<char>, settled: bool) -> DraftView {
        DraftView {
            date,
            boss: trimmed(self.boss),
            income: self.amount().rounded() as int,
            duration: if trimmed(self.duration).len() == 0 {
                None
            } else {
                Some(self.time().rounded())
            },
            game: if trimmed(self.game).len() == 0 {
                None
            } else {
                Some(trimmed(self.game))
            },
            settled,
        }
    }
}

impl ValidationError {
    /// Whether the boss field is marked as wrong.
    pub open spec fn marks_boss(self) -> bool {
        self == ValidationError::MissingBoth || self == ValidationError::MissingBoss
    }

    /// Whether the income field is marked as wrong.
    pub open spec fn marks_income(self) -> bool {
        self == ValidationError::MissingBoth || self == ValidationError::InvalidAmount || self
            == ValidationError::OverCeiling
    }

    /// The message shown for the error, under a ceiling of `ceiling` yuan.
    pub open spec fn message_text(self, ceiling: nat) -> Seq<char> {
        match self {
            ValidationError::MissingBoth => "请输入老板名称和收入金额"@,
            ValidationError::MissingBoss => "请输入老板名称"@,
            ValidationError::InvalidAmount => "请输入有效金额"@,
            ValidationError::OverCeiling => "单笔金额不能超过 ¥"@ + decimal(ceiling),
            ValidationError::InvalidDuration => "请输入有效时长"@,
        }
    }

    /// Tells whether the boss field is marked as wrong.
    pub fn boss_error(&self) -> (b: bool)
        ensures
            b == self.marks_boss(),
    {
        match self {
            ValidationError::MissingBoth | ValidationError::MissingBoss => true,
            _ => false,
        }
    }

    /// Tells whether the income field is marked as wrong.
    pub fn income_error(&self) -> (b: bool)
        ensures
            b == self.marks_income(),
    {
        match self {
            ValidationError::MissingBoth
            | ValidationError::InvalidAmount
            | ValidationError::OverCeiling => true,
            _ => false,
        }
    }

    /// The message shown for the error, under a ceiling of `ceiling` yuan.
    pub fn message(&self, ceiling: u32) -> (text: String)
        ensures
            text@ == self.message_text(ceiling as nat),
    {
        match self {
            ValidationError::MissingBoth => String::from_str("请输入老板名称和收入金额"),
            ValidationError::MissingBoss => String::from_str("请输入老板名称"),
            ValidationError::InvalidAmount => String::from_str("请输入有效金额"),
            ValidationError::OverCeiling => {
                let mut text = String::from_str("单笔金额不能超过 ¥");
                push_decimal(&mut text, ceiling as u128);
                text
            },
            ValidationError::InvalidDuration => String::from_str("请输入有效时长"),
        }
    }
}

/// Checks what was typed for a new entry of the day `date`, under a ceiling
/// of `ceiling` yuan, and gives the draft to store or the reason for
/// turning the entry down.
pub fn validate(
    date: &Date,
    boss: &str,
    income: &str,
    duration: &str,
    game: &str,
    settled: bool,
    ceiling: u32,
) -> (r: Result<Draft, ValidationError>)
    ensures
        ({
            let typed = Typed { boss: boss@, income: income@, duration: duration@, game: game@ };
            match typed.fault(ceiling as nat) {
                Some(e) => r == Err::<Draft, ValidationError>(e),
                None => r is Ok && r->Ok_0@ == typed.draft(date@.text(), settled),
            }
        }),
        r matches Ok(draft) ==> 0 < draft.income <= ceiling * 100 && draft.boss@.len() > 0,
{
    let boss = trim_text(boss);
    let amount = read_decimal(trim_text(income).as_str(), INCOME_PLACES);
    let boss_missing = boss.as_str().is_empty();
    let fen: Option<u64> = match amount {
        Reading::Value { .. } => Some(amount.round()),
        _ => None,
    };
    let income_invalid = match amount {
        Reading::Malformed => true,
        Reading::Huge { negative } => negative,
        Reading::Value { negative, .. } => negative || amount.round() == 0,
    };
    if boss_missing && income_invalid {
        return Err(ValidationError::MissingBoth);
    }
    if boss_missing {
        return Err(ValidationError::MissingBoss);
    }
    if income_invalid {
        return Err(ValidationError::InvalidAmount);
    }
    let income: i64 = match fen {
        Some(fen) if fen <= ceiling as u64 * 100 => fen as i64,
        _ => {
            return Err(ValidationError::OverCeiling);
        },
    };
    let duration = trim_text(duration);
    let duration: Option<u32> = if duration.as_str().is_empty() {
        None
    } else {
        let time = read_decimal(duration.as_str(), DURATION_PLACES);
        let tenths = time.round();
        match time {
            Reading::Value { .. } if time.positive() && tenths <= u32::MAX as u64 => Some(
                tenths as u32,
            ),
            _ => {
                return Err(ValidationError::InvalidDuration);
            },
        }
    };
    let game = trim_text(game);
    let game: Option<String> = if game.as_str().is_empty() {
        None
    } else {
        Some(game)
    };
    Ok(Draft { date: date.iso(), boss, income, duration, game, settled })
}

} // verus!
