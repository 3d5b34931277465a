//! MIDI input: choosing a port, and what its messages do to sliders and buttons.
use vstd::prelude::*;

use crate::text;
use crate::text::position_containing_ignoring_case;

verus! {

/// First and last controller number of the nine sliders of an APC mini mk2.
pub const DEFAULT_CC_FIRST: u8 = 48;

pub const DEFAULT_CC_LAST: u8 = 56;

/// Number of sliders that move through the latent space.
pub const NUM_SLIDERS: usize = 8;

/// The controller numbers of those sliders start here.
pub const CC_FIRST: u8 = 48;

/// The notes of the buttons above those sliders start here.
pub const BUTTON_FIRST: u8 = 64;

/// Width of a slider bar, in characters.
pub const BAR_WIDTH: usize = 40;

/// The name under which a port is known.
pub open spec fn label(name: Option<String>) -> Seq<char> {
    match name {
        Some(n) => n@,
        None => "(unknown)"@,
    }
}

/// The lowercase names of ports.
pub open spec fn lowered_labels(names: Seq<Option<String>>) -> Seq<Seq<char>> {
    Seq::new(names.len(), |i: int| text::lowered(label(names[i])))
}

/// The name under which a port is shown and searched for.
pub fn port_label(name: &Option<String>) -> (r: String)
    ensures
        r@ == label(*name),
{
    match name {
        Some(n) => n.clone(),
        None => String::from_str("(unknown)"),
    }
}

/// The first port whose name contains `needle`, ignoring case (`None` stands for
/// a port that does not tell its name).
pub fn find_port(names: &[Option<String>], needle: &str) -> (r: Option<usize>)
    ensures
        text::is_first(r, lowered_labels(names@), text::lowered(needle@)),
{
    let mut labels: Vec<String> = Vec::new();
    let mut i: usize = 0;
    while i < names.len()
        invariant
            i <= names@.len(),
            labels.len() == i,
            forall|j: int| 0 <= j < i ==> #[trigger] labels[j]@ == label(names@[j]),
        decreases names@.len() - i,
    {
        labels.push(port_label(&names[i]));
        i = i + 1;
    }
    proof {
        assert(text::lowered_texts(labels@) =~= lowered_labels(names@));
    }
    position_containing_ignoring_case(labels.as_slice(), needle)
}

/// A message of three bytes or more, as its kind (the upper half of the status
/// byte, which leaves the channel out) and its two data bytes.
pub open spec fn parts(message: Seq<u8>) -> Option<(u8, u8, u8)> {
    if message.len() < 3 {
        None
    } else {
        Some(((message[0] / 16) as u8, message[1], message[2]))
    }
}

/// The kind of a controller change.
pub const CONTROL: u8 = 0xb;

/// The kind of a note that starts.
pub const NOTE_ON: u8 = 0x9;

/// Decode a message.
fn decode(message: &[u8]) -> (r: Option<(u8, u8, u8)>)
    ensures
        r == parts(message@),
{
    if message.len() < 3 {
        None
    } else {
        Some((message[0] / 16, message[1], message[2]))
    }
}

/// A range of sliders and their last values.
pub struct SliderBank {
    first: u8,
    values: Vec<u8>,
}

/// The last controller number is below the first.
#[derive(Copy, Clone, Debug, PartialEq, Eq, Structural)]
pub struct EmptyRange {
    pub first: u8,
    pub last: u8,
}

impl SliderBank {
    #[verifier::type_invariant]
    spec fn within(self) -> bool {
        0 < self.values.len() && self.first + self.values.len() <= 256
    }

    /// The first controller number.
    pub closed spec fn start(self) -> int {
        self.first as int
    }

    /// The values, slider by slider.
    pub closed spec fn levels(self) -> Seq<u8> {
        self.values@
    }

    /// Sliders for the controllers `first` to `last`, all at 0.
    pub fn new(first: u8, last: u8) -> (r: Result<SliderBank, EmptyRange>)
        ensures
            match r {
                Ok(bank) => {
                    &&& first <= last
                    &&& bank.start() == first
                    &&& bank.levels() == Seq::new((last - first + 1) as nat, |i: int| 0u8)
                },
                Err(e) => last < first && e == (EmptyRange { first, last }),
            },
    {
        if last < first {
            return Err(EmptyRange { first, last });
        }
        let count: usize = (last - first) as usize + 1;
        let mut values: Vec<u8> = Vec::new();
        let mut i: usize = 0;
        while i < count
            invariant
                i <= count,
                values@ == Seq::new(i as nat, |j: int| 0u8),
            decreases count - i,
        {
            values.push(0);
            i = i + 1;
        }
        Ok(SliderBank { first, values })
    }

    /// Number of sliders.
    pub fn count(&self) -> (n: usize)
        ensures
            n == self.levels().len(),
    {
        self.values.len()
    }

    /// The values, slider by slider.
    pub fn snapshot(&self) -> (v: Vec<u8>)
        ensures
            v@ == self.levels(),
    {
        self.values.clone()
    }

    /// Take in a message: a controller change on any channel sets its slider.
    pub fn apply(&mut self, message: &[u8])
        ensures
            final(self).start() == old(self).start(),
            final(self).levels() == (match parts(message@) {
                Some((kind, cc, value)) => if kind == CONTROL && old(self).start() <= cc < old(
                    self,
                ).start() + old(self).levels().len() {
                    old(self).levels().update(cc - old(self).start(), value)
                } else {
                    old(self).levels()
                },
                None => old(self).levels(),
            }),
    {
        proof {
            use_type_invariant(&*self);
        }
        if let Some((kind, cc, value)) = decode(message) {
            if kind == CONTROL && self.first <= cc && ((cc - self.first) as usize)
                < self.values.len() {
                let i: usize = (cc - self.first) as usize;
                self.values[i] = value;
            }
        }
    }
}

/// How much of a bar of `width` characters a slider value fills.
pub open spec fn filled(value: int, width: int) -> int {
    value * width / 127
}

/// The bar for a slider value: its share of the width in full blocks, then light
/// ones.
pub fn bar(value: u8, width: usize) -> (r: String)
    requires
        value <= 127,
        value * width <= usize::MAX,
    ensures
        r@.len() == width,
        0 <= filled(value as int, width as int) <= width,
        forall|i: int|
            0 <= i < width ==> #[trigger] r@[i] == if i < filled(value as int, width as int) {
                '█'
            } else {
                '░'
            },
{
    proof {
        assert(0 <= value * width <= 127 * width) by (nonlinear_arith)
            requires
                value <= 127,
        ;
        reveal_strlit("█");
        reveal_strlit("░");
    }
    let full: usize = value as usize * width / 127;
    let mut r = String::new();
    let mut i: usize = 0;
    while i < width
        invariant
            i <= width,
            full <= width,
            r@.len() == i,
            "█"@ == seq!['█'],
            "░"@ == seq!['░'],
            forall|j: int|
                0 <= j < i ==> #[trigger] r@[j] == if j < full {
                    '█'
                } else {
                    '░'
                },
        decreases width - i,
    {
        if i < full {
            r.append("█");
        } else {
            r.append("░");
        }
        i = i + 1;
    }
    r
}

/// A bar is empty at 0 and full at 127, and never shrinks as the value rises.
pub proof fn bars_rise_with_the_value(low: int, high: int, width: int)
    requires
        0 <= low <= high <= 127,
        0 <= width,
    ensures
        filled(0, width) == 0,
        filled(127, width) == width,
        filled(low, width) <= filled(high, width),
{
    assert(low * width <= high * width) by (nonlinear_arith)
        requires
            low <= high,
            width >= 0,
    ;
    assert(0 * width == 0);
}

/// State shared between the MIDI callback and the render loop.
pub struct MidiState {
    pub sliders: [u8; 8],
    /// Button press counter per slider, incremented on note-on; the render loop
    /// looks for changes.
    pub button_presses: [u64; 8],
}

impl MidiState {
    /// Sliders at their midpoint, and no button pressed.
    pub fn new() -> (s: MidiState)
        ensures
            forall|i: int| 0 <= i < NUM_SLIDERS ==> #[trigger] s.sliders[i] == 64,
            forall|i: int| 0 <= i < NUM_SLIDERS ==> #[trigger] s.button_presses[i] == 0,
    {
        MidiState { sliders: [64; 8], button_presses: [0; 8] }
    }

    /// Take in a message: a controller change sets its slider, and a note that
    /// starts with a velocity above zero counts as a press of its button.
    pub fn apply(&mut self, message: &[u8])
        requires
            forall|i: int|
                0 <= i < NUM_SLIDERS ==> #[trigger] old(self).button_presses[i] < u64::MAX,
        ensures
            match parts(message@) {
                Some((kind, data, value)) => {
                    &&& final(self).sliders@ == if kind == CONTROL && CC_FIRST <= data < CC_FIRST
                        + NUM_SLIDERS {
                        old(self).sliders@.update(data - CC_FIRST, value)
                    } else {
                        old(self).sliders@
                    }
                    &&& final(self).button_presses@ == if kind == NOTE_ON && BUTTON_FIRST <= data
                        < BUTTON_FIRST + NUM_SLIDERS && value > 0 {
                        old(self).button_presses@.update(
                            data - BUTTON_FIRST,
                            (old(self).button_presses[data - BUTTON_FIRST] + 1) as u64,
                        )
                    } else {
                        old(self).button_presses@
                    }
                },
                None => *final(self) == *old(self),
            },
    {
        if let Some((kind, data, value)) = decode(message) {
            if kind == CONTROL && CC_FIRST <= data && data - CC_FIRST < 8 {
                self.sliders[(data - CC_FIRST) as usize] = value;
            }
            if kind == NOTE_ON && BUTTON_FIRST <= data && data - BUTTON_FIRST < 8 && value > 0 {
                let i: usize = (data - BUTTON_FIRST) as usize;
                let presses: u64 = self.button_presses[i];
                self.button_presses[i] = presses + 1;
            }
        }
    }
}

/// A bar has as many full blocks (their number is returned) as whole 127ths of the width
/// that the value makes up, and then light ones.
pub proof fn bars_are_filled_in_proportion(value: u8, width: usize, r: String) -> (full: int)
    requires
        call_ensures(bar, (value, width), r),
        value <= 127,
    ensures
        r@.len() == width,
        127 * full <= value * width < 127 * (full + 1),
        forall|i: int| 0 <= i < full ==> #[trigger] r@[i] == '█',
        forall|i: int| full <= i < width ==> #[trigger] r@[i] == '░',
{
    let full = filled(value as int, width as int);
    vstd::arithmetic::div_mod::lemma_fundamental_div_mod(value * width, 127);
    full
}

/// A range of sliders starts with every slider at 0, one for each controller number; only a
/// range whose last number is below its first is refused.
pub proof fn ranges_have_a_slider_per_controller(
    first: u8,
    last: u8,
    r: Result<SliderBank, EmptyRange>,
    i: int,
)
    requires
        call_ensures(SliderBank::new, (first, last), r),
    ensures
        r is Err <==> last < first,
        r is Ok ==> r->Ok_0.start() == first && r->Ok_0.levels().len() == last - first + 1,
        r is Ok && 0 <= i <= last - first ==> r->Ok_0.levels()[i] == 0,
{
}

/// The sliders start at their midpoint, and no press is counted.
pub proof fn sliders_start_at_the_midpoint(s: MidiState, i: int)
    requires
        call_ensures(MidiState::new, (), s),
        0 <= i < 8,
    ensures
        s.sliders@[i] == 64,
        s.button_presses@[i] == 0,
{
    assert(s.sliders[i] == 64 && s.button_presses[i] == 0);
}

/// What a message does to a range of sliders: only a controller change (on any of the 16
/// channels) whose number lies in the range does anything, and it sets that one slider.
pub proof fn controller_changes_set_one_slider(b: &mut SliderBank, message: &[u8], i: int)
    requires
        call_ensures(SliderBank::apply, (b, message), ()),
        0 <= i < old(b).levels().len(),
    ensures
        final(b).start() == old(b).start(),
        final(b).levels().len() == old(b).levels().len(),
        final(b).levels()[i] == if message@.len() >= 3 && 0xb0 <= message@[0] < 0xc0
            && message@[1] == old(b).start() + i {
            message@[2]
        } else {
            old(b).levels()[i]
        },
{
}

/// What a message does to the shared state: a controller change of number `48 + i`, on any
/// channel, sets slider `i`, and a note `64 + i` that starts with a velocity above zero
/// counts one press of button `i`. Nothing else happens.
pub proof fn messages_move_sliders_and_count_presses(s: &mut MidiState, message: &[u8], i: int)
    requires
        call_ensures(MidiState::apply, (s, message), ()),
        old(s).button_presses@[i] < u64::MAX,
        0 <= i < 8,
    ensures
        final(s).sliders@[i] == if message@.len() >= 3 && 0xb0 <= message@[0] < 0xc0
            && message@[1] == 48 + i {
            message@[2]
        } else {
            old(s).sliders@[i]
        },
        final(s).button_presses@[i] == old(s).button_presses@[i] + if message@.len() >= 3 && 0x90
            <= message@[0] < 0xa0 && message@[1] == 64 + i && message@[2] > 0 {
            1int
        } else {
            0
        },
{
}

/// The port found is the first whose name, in lowercase, contains the needle in lowercase;
/// none is found only where no name does.
pub proof fn the_first_matching_port_is_found(
    names: &[Option<String>],
    needle: &str,
    r: Option<usize>,
    j: int,
)
    requires
        call_ensures(find_port, (names, needle), r),
        0 <= j < names@.len(),
        names@[j] is Some,
    ensures
        r is Some ==> r->0 < names@.len(),
        r is Some && r->0 == j ==> text::occurs(
            text::lowered(needle@),
            text::lowered(names@[j]->0@),
        ),
        r is None || j < r->0 ==> !text::occurs(
            text::lowered(needle@),
            text::lowered(names@[j]->0@),
        ),
{
    assert(lowered_labels(names@)[j] == text::lowered(names@[j]->0@));
}

} // verus!
