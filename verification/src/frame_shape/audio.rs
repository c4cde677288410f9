//! The audio filter graph of a layout: every region's sound is placed in
//! the stereo field, set to its volume, and all are mixed and normalised.

use vstd::prelude::*;
use vstd::string::StringExecFns;
use crate::frame_shape::FrameShape;
use crate::text::{decimal, is_scalar, push_decimal, push_signed, signed_decimal};

verus! {

/// Where in the stereo field a region sounds.
#[derive(Clone, Copy, Debug, PartialEq, Eq, Structural)]
pub enum Pan {
    Left,
    LeftCentre,
    Centre,
    RightCentre,
    Right,
}

/// How one input is treated before the mix.
#[derive(Clone, Copy, Debug, PartialEq, Eq, Structural)]
pub enum Channel {
    /// Balanced and turned to its place, then set to a volume in decibel.
    Placed(Pan, i32),
    /// Turned by an angle in degrees only.
    Turned(i32),
}

/// The balance of a place in the stereo field, as the filter takes it.
pub open spec fn balance_text(pan: Pan) -> Seq<char> {
    match pan {
        Pan::Left => "0.9"@,
        Pan::LeftCentre => "0.45"@,
        Pan::Centre => "0"@,
        Pan::RightCentre => "-0.45"@,
        Pan::Right => "-0.9"@,
    }
}

/// The angle of a place in the stereo field, in degrees.
pub open spec fn pan_angle(pan: Pan) -> int {
    match pan {
        Pan::Left => -90,
        Pan::Right => 90,
        _ => 0,
    }
}

/// The label of input `number`: the letters from `a` on.
pub open spec fn label(number: nat) -> char {
    ((number + 97) as u32) as char
}

/// The filter that takes input `number` in under its label.
pub open spec fn input_text(number: nat) -> Seq<char> {
    "["@ + decimal(number + 1) + ":a]anull["@ + seq![label(number)] + "];"@
}

/// The filter that balances the input with the label `c`.
pub open spec fn balance_filter(c: char, pan: Pan) -> Seq<char> {
    "["@ + seq![c] + "]stereotools=balance_in=-"@ + balance_text(pan) + "["@ + seq![c] + "];"@
}

/// An angle in degrees as the surround filter takes it: a negative angle
/// counts from the full circle.
pub open spec fn turned_angle(angle: int) -> int {
    if angle < 0 {
        360 + angle
    } else {
        angle
    }
}

/// The filter that turns the input with the label `c` by an angle.
pub open spec fn surround_filter(c: char, angle: int) -> Seq<char> {
    "["@ + seq![c] + "]surround=chl_out=stereo:chl_in=stereo:angle="@ + decimal(
        turned_angle(angle) as nat,
    ) + "["@ + seq![c] + "];"@
}

/// The filter that sets the input with the label `c` to a volume.
pub open spec fn volume_filter(c: char, db: int) -> Seq<char> {
    "["@ + seq![c] + "]volume="@ + signed_decimal(db) + "dB["@ + seq![c] + "];"@
}

/// The filters that place the input with the label `c` at `pan` and set it
/// to a volume: balance, turn, volume.
pub open spec fn placed_filters(c: char, pan: Pan, db: int) -> Seq<char> {
    balance_filter(c, pan) + surround_filter(c, pan_angle(pan)) + volume_filter(c, db)
}

/// The filters of one input that is placed in the stereo field.
pub open spec fn placed_text(number: nat, pan: Pan, db: int) -> Seq<char> {
    input_text(number) + placed_filters(label(number), pan, db)
}

/// The filters of one input.
pub open spec fn channel_text(number: nat, channel: Channel) -> Seq<char> {
    match channel {
        Channel::Placed(pan, db) => placed_text(number, pan, db as int),
        Channel::Turned(angle) => input_text(number) + surround_filter(label(number), angle as int),
    }
}

/// The texts one after another.
pub open spec fn joined_texts(texts: Seq<Seq<char>>, n: int) -> Seq<char>
    decreases n,
{
    if n <= 0 {
        Seq::empty()
    } else {
        joined_texts(texts, n - 1) + texts[n - 1]
    }
}

/// The labels, each in square brackets.
pub open spec fn bracketed(labels: Seq<char>, n: int) -> Seq<char>
    decreases n,
{
    if n <= 0 {
        Seq::empty()
    } else {
        bracketed(labels, n - 1) + seq!['[', labels[n - 1], ']']
    }
}

/// The whole filter graph: the filters of all inputs, then the mix of all
/// labels and the normalisation of its loudness.
pub open spec fn mix_text(labels: Seq<char>, texts: Seq<Seq<char>>) -> Seq<char> {
    joined_texts(texts, texts.len() as int) + bracketed(labels, labels.len() as int)
        + "amix=inputs="@ + decimal(labels.len()) + "[d];[d]loudnorm[d]"@
}

/// The views of the texts.
pub open spec fn text_views(texts: Seq<String>) -> Seq<Seq<char>> {
    Seq::new(texts.len(), |i: int| texts[i]@)
}

/// A filter graph in the making: the labels of the inputs and the filters
/// of each.
#[derive(Debug)]
pub struct FfmAudioText {
    pub inputs: Vec<char>,
    pub text: Vec<String>,
}

impl FfmAudioText {
    /// There is a text of filters for each input, and at least one input.
    pub open spec fn has_input(&self) -> bool {
        self.inputs@.len() > 0 && self.text@.len() == self.inputs@.len()
    }

    /// Another graph with the same inputs, whose last input has `more`
    /// filters behind those it had.
    pub open spec fn extended(&self, after: &Self, more: Seq<char>) -> bool {
        &&& after.inputs@ == self.inputs@
        &&& after.text@.len() == self.text@.len()
        &&& forall|i: int| 0 <= i < self.text@.len() - 1 ==> (#[trigger] after.text@[i])@ == self.text@[i]@
        &&& after.text@[after.text@.len() - 1]@ == self.text@[self.text@.len() - 1]@ + more
    }

    /// A graph without inputs.
    pub fn new() -> (graph: Self)
        ensures
            graph.inputs@.len() == 0,
            graph.text@.len() == 0,
    {
        FfmAudioText { inputs: Vec::new(), text: Vec::new() }
    }

    /// Takes the next input in, under the next label.
    pub fn add_input(self) -> (graph: Self)
        requires
            self.inputs@.len() + 97 <= u32::MAX,
            is_scalar((self.inputs@.len() + 97) as u32),
            self.text@.len() == self.inputs@.len(),
        ensures
            graph.inputs@ == self.inputs@.push(label(self.inputs@.len())),
            text_views(graph.text@) == text_views(self.text@).push(input_text(self.inputs@.len())),
            graph.has_input(),
    {
        let mut graph = self;
        let number = graph.inputs.len();
        let character = match char::from_u32((number + 97) as u32) {
            Some(c) => c,
            None => 'a',
        };
        graph.inputs.push(character);
        let mut line = String::new();
        line.append("[");
        push_decimal(&mut line, number as u64 + 1);
        line.append(":a]anull[");
        line.push(character);
        line.append("];");
        proof {
            assert(line@ =~= input_text(number as nat));
        }
        let ghost before = graph.text@;
        graph.text.push(line);
        assert(text_views(graph.text@) =~= text_views(before).push(line@));
        graph
    }

    /// Appends `more` to the filters of the last input.
    fn append_last(self, more: &str) -> (graph: Self)
        requires
            self.has_input(),
        ensures
            self.extended(&graph, more@),
            graph.has_input(),
    {
        let mut graph = self;
        let ghost before = graph.text@;
        match graph.text.pop() {
            Some(mut line) => {
                line.append(more);
                graph.text.push(line);
            },
            None => {},
        }
        graph
    }

    /// Appends the decimal digits of `n` to the filters of the last input.
    fn append_last_number(self, n: i32) -> (graph: Self)
        requires
            self.has_input(),
        ensures
            self.extended(&graph, signed_decimal(n as int)),
            graph.has_input(),
    {
        let mut graph = self;
        match graph.text.pop() {
            Some(mut line) => {
                push_signed(&mut line, n);
                graph.text.push(line);
            },
            None => {},
        }
        graph
    }

    /// Appends the label of the last input to its filters.
    fn append_last_label(self) -> (graph: Self)
        requires
            self.has_input(),
        ensures
            self.extended(&graph, seq![self.inputs@[self.inputs@.len() - 1]]),
            graph.has_input(),
    {
        let mut graph = self;
        let character = graph.inputs[graph.inputs.len() - 1];
        match graph.text.pop() {
            Some(mut line) => {
                let ghost held = line@;
                line.push(character);
                assert(line@ =~= held + seq![character]);
                graph.text.push(line);
            },
            None => {},
        }
        graph
    }

    /// Balances the last input to its place in the stereo field.
    pub fn stereo_bal(self, bal: Pan) -> (graph: Self)
        requires
            self.has_input(),
        ensures
            self.extended(&graph, balance_filter(self.inputs@[self.inputs@.len() - 1], bal)),
            graph.has_input(),
    {
        let graph = self.append_last("[").append_last_label().append_last(
            "]stereotools=balance_in=-",
        );
        let graph = match bal {
            Pan::Left => graph.append_last("0.9"),
            Pan::LeftCentre => graph.append_last("0.45"),
            Pan::Centre => graph.append_last("0"),
            Pan::RightCentre => graph.append_last("-0.45"),
            Pan::Right => graph.append_last("-0.9"),
        };
        let graph = graph.append_last("[").append_last_label().append_last("];");
        proof {
            let c = self.inputs@[self.inputs@.len() - 1];
            let last = self.text@[self.text@.len() - 1]@;
            assert(graph.text@[graph.text@.len() - 1]@ =~= last + balance_filter(c, bal));
        }
        graph
    }

    /// Turns the last input by an angle in degrees; a negative angle counts
    /// from the full circle.
    pub fn surround(self, angle: i32) -> (graph: Self)
        requires
            self.has_input(),
            -360 <= angle < 360,
        ensures
            self.extended(
                &graph,
                surround_filter(self.inputs@[self.inputs@.len() - 1], angle as int),
            ),
            graph.has_input(),
    {
        let turned = if angle < 0 {
            360 + angle
        } else {
            angle
        };
        let graph = self.append_last("[").append_last_label().append_last(
            "]surround=chl_out=stereo:chl_in=stereo:angle=",
        ).append_last_number(turned).append_last("[").append_last_label().append_last("];");
        proof {
            let c = self.inputs@[self.inputs@.len() - 1];
            let last = self.text@[self.text@.len() - 1]@;
            assert(graph.text@[graph.text@.len() - 1]@ =~= last + surround_filter(c, angle as int));
        }
        graph
    }

    /// Sets the last input to a volume in decibel.
    pub fn volume(self, db: i32) -> (graph: Self)
        requires
            self.has_input(),
        ensures
            self.extended(&graph, volume_filter(self.inputs@[self.inputs@.len() - 1], db as int)),
            graph.has_input(),
    {
        let graph = self.append_last("[").append_last_label().append_last(
            "]volume=",
        ).append_last_number(db).append_last("dB[").append_last_label().append_last("];");
        proof {
            let c = self.inputs@[self.inputs@.len() - 1];
            let last = self.text@[self.text@.len() - 1]@;
            assert(graph.text@[graph.text@.len() - 1]@ =~= last + volume_filter(c, db as int));
        }
        graph
    }

    /// Places the last input at `pan` and sets it to a volume.
    pub fn placed(self, pan: Pan, db: i32) -> (graph: Self)
        requires
            self.has_input(),
        ensures
            self.extended(
                &graph,
                placed_filters(self.inputs@[self.inputs@.len() - 1], pan, db as int),
            ),
            graph.has_input(),
    {
        let angle: i32 = match pan {
            Pan::Left => -90,
            Pan::Right => 90,
            _ => 0,
        };
        let graph = self.stereo_bal(pan).surround(angle).volume(db);
        proof {
            let c = self.inputs@[self.inputs@.len() - 1];
            let last = self.text@[self.text@.len() - 1]@;
            assert(graph.text@[graph.text@.len() - 1]@ =~= last + placed_filters(c, pan, db as int));
        }
        graph
    }

    /// The last input sounds left, at a volume in decibel.
    pub fn stereo_l(self, db: i32) -> (graph: Self)
        requires
            self.has_input(),
        ensures
            self.extended(
                &graph,
                placed_filters(self.inputs@[self.inputs@.len() - 1], Pan::Left, db as int),
            ),
            graph.has_input(),
    {
        self.placed(Pan::Left, db)
    }

    /// The last input sounds half left, at a volume in decibel.
    pub fn stereo_lc(self, db: i32) -> (graph: Self)
        requires
            self.has_input(),
        ensures
            self.extended(
                &graph,
                placed_filters(self.inputs@[self.inputs@.len() - 1], Pan::LeftCentre, db as int),
            ),
            graph.has_input(),
    {
        self.placed(Pan::LeftCentre, db)
    }

    /// The last input sounds in the middle, at a volume in decibel.
    pub fn stereo_c(self, db: i32) -> (graph: Self)
        requires
            self.has_input(),
        ensures
            self.extended(
                &graph,
                placed_filters(self.inputs@[self.inputs@.len() - 1], Pan::Centre, db as int),
            ),
            graph.has_input(),
    {
        self.placed(Pan::Centre, db)
    }

    /// The last input sounds half right, at a volume in decibel.
    pub fn stereo_rc(self, db: i32) -> (graph: Self)
        requires
            self.has_input(),
        ensures
            self.extended(
                &graph,
                placed_filters(self.inputs@[self.inputs@.len() - 1], Pan::RightCentre, db as int),
            ),
            graph.has_input(),
    {
        self.placed(Pan::RightCentre, db)
    }

    /// The last input sounds right, at a volume in decibel.
    pub fn stereo_r(self, db: i32) -> (graph: Self)
        requires
            self.has_input(),
        ensures
            self.extended(
                &graph,
                placed_filters(self.inputs@[self.inputs@.len() - 1], Pan::Right, db as int),
            ),
            graph.has_input(),
    {
        self.placed(Pan::Right, db)
    }

    /// The whole filter graph as text.
    pub fn mix_out(self) -> (txt: String)
        requires
            self.text@.len() <= u64::MAX,
            self.inputs@.len() <= u64::MAX,
        ensures
            txt@ == mix_text(self.inputs@, text_views(self.text@)),
    {
        let mut txt = String::new();
        let mut i: usize = 0;
        while i < self.text.len()
            invariant
                i <= self.text@.len(),
                txt@ == joined_texts(text_views(self.text@), i as int),
            decreases self.text@.len() - i,
        {
            txt.append(self.text[i].as_str());
            i += 1;
        }
        let ghost texts = txt@;
        let mut k: usize = 0;
        while k < self.inputs.len()
            invariant
                k <= self.inputs@.len(),
                txt@ == texts + bracketed(self.inputs@, k as int),
            decreases self.inputs@.len() - k,
        {
            let ghost held = txt@;
            txt.push('[');
            txt.push(self.inputs[k]);
            txt.push(']');
            assert(txt@ =~= texts + (bracketed(self.inputs@, k as int) + seq![
                '[',
                self.inputs@[k as int],
                ']',
            ]));
            k += 1;
        }
        txt.append("amix=inputs=");
        push_decimal(&mut txt, self.inputs.len() as u64);
        txt.append("[d];[d]loudnorm[d]");
        txt
    }
}

/// The labels of the first `n` inputs.
pub open spec fn labels(n: nat) -> Seq<char> {
    Seq::new(n, |i: int| label(i as nat))
}

impl FrameShape {
    /// How the layout treats the sound of its inputs, in the order of the
    /// inputs. Empty for a layout that has no audio graph.
    pub open spec fn audio_channels(self) -> Seq<Channel> {
        match self {
            FrameShape::Dual => seq![
                Channel::Placed(Pan::LeftCentre, 0i32),
                Channel::Placed(Pan::RightCentre, 0i32),
            ],
            FrameShape::Triple => seq![
                Channel::Placed(Pan::Left, -3i32),
                Channel::Placed(Pan::Centre, 0i32),
                Channel::Placed(Pan::Right, -3i32),
            ],
            FrameShape::Quad => seq![
                Channel::Placed(Pan::LeftCentre, 0i32),
                Channel::Placed(Pan::RightCentre, 0i32),
                Channel::Placed(Pan::Left, -3i32),
                Channel::Placed(Pan::Right, -3i32),
            ],
            FrameShape::VertEmph | FrameShape::VertEmph2 => seq![
                Channel::Placed(Pan::Centre, 0i32),
                Channel::Placed(Pan::Left, -3i32),
                Channel::Placed(Pan::Right, -3i32),
                Channel::Placed(Pan::Left, -5i32),
                Channel::Placed(Pan::Right, -5i32),
            ],
            FrameShape::HorizEmph | FrameShape::HorizEmph2 => seq![
                Channel::Placed(Pan::Left, -3i32),
                Channel::Placed(Pan::Centre, 0i32),
                Channel::Placed(Pan::Centre, -5i32),
                Channel::Placed(Pan::Right, -3i32),
            ],
            FrameShape::SideVert => seq![
                Channel::Placed(Pan::Left, 0i32),
                Channel::Placed(Pan::RightCentre, 0i32),
                Channel::Placed(Pan::RightCentre, -3i32),
            ],
            FrameShape::SideVert2 => seq![
                Channel::Placed(Pan::Right, 0i32),
                Channel::Placed(Pan::LeftCentre, 0i32),
                Channel::Placed(Pan::LeftCentre, -3i32),
            ],
            FrameShape::CentreEmphVert | FrameShape::CentreEmphVert2 => seq![
                Channel::Placed(Pan::Centre, 0i32),
                Channel::Placed(Pan::Left, -2i32),
                Channel::Placed(Pan::Right, -2i32),
                Channel::Placed(Pan::LeftCentre, -5i32),
                Channel::Placed(Pan::RightCentre, -5i32),
            ],
            FrameShape::MoreHoriz | FrameShape::MoreHoriz2 => seq![
                Channel::Placed(Pan::Centre, 0i32),
                Channel::Placed(Pan::Left, -2i32),
                Channel::Placed(Pan::Right, -2i32),
                Channel::Placed(Pan::LeftCentre, -5i32),
                Channel::Placed(Pan::RightCentre, -5i32),
                Channel::Placed(Pan::Left, -2i32),
                Channel::Placed(Pan::Right, -2i32),
            ],
            FrameShape::ExtendedLandscape => seq![
                Channel::Placed(Pan::Centre, 0i32),
                Channel::Placed(Pan::LeftCentre, -5i32),
                Channel::Placed(Pan::RightCentre, -5i32),
                Channel::Placed(Pan::Left, -2i32),
                Channel::Placed(Pan::Right, -2i32),
                Channel::Placed(Pan::Left, -3i32),
                Channel::Placed(Pan::Right, -3i32),
                Channel::Placed(Pan::Left, -3i32),
                Channel::Placed(Pan::Right, -3i32),
            ],
            FrameShape::ExtendedLandscape2 => seq![
                Channel::Turned(0i32),
                Channel::Placed(Pan::LeftCentre, -4i32),
                Channel::Placed(Pan::Centre, -3i32),
                Channel::Placed(Pan::RightCentre, -4i32),
                Channel::Placed(Pan::Left, -5i32),
                Channel::Placed(Pan::Right, -5i32),
                Channel::Placed(Pan::Left, -6i32),
                Channel::Placed(Pan::Right, -6i32),
            ],
            FrameShape::Mono | FrameShape::OffsetVH4x4 => seq![],
        }
    }

    /// Whether the layout has an audio graph.
    pub open spec fn has_audio_graph(self) -> bool {
        self != FrameShape::Mono && self != FrameShape::OffsetVH4x4
    }

    /// The audio filter graph of the layout as text.
    pub open spec fn audio_graph(self) -> Seq<char> {
        mix_text(
            labels(self.audio_channels().len()),
            Seq::new(
                self.audio_channels().len(),
                |i: int| channel_text(i as nat, self.audio_channels()[i]),
            ),
        )
    }

    /// A layout with an audio graph has one input for each of its regions.
    pub proof fn lemma_channel_per_region(self)
        requires
            self.has_audio_graph(),
        ensures
            self.audio_channels().len() == self.region_count(),
    {
    }

    /// How the layout treats the sound of its inputs: one input for each
    /// region, where the layout has an audio graph.
    pub fn audio_plan(&self) -> (plan: Vec<Channel>)
        ensures
            plan@ == self.audio_channels(),
            self.has_audio_graph() ==> plan@.len() == self.region_count(),
            plan@.len() <= 9,
            forall|i: int|
                0 <= i < plan@.len() ==> (#[trigger] plan@[i] matches Channel::Turned(angle) ==> -360
                    <= angle < 360),
    {
        let plan = match self {
            FrameShape::Dual => vec![
                Channel::Placed(Pan::LeftCentre, 0),
                Channel::Placed(Pan::RightCentre, 0),
            ],
            FrameShape::Triple => vec![
                Channel::Placed(Pan::Left, -3),
                Channel::Placed(Pan::Centre, 0),
                Channel::Placed(Pan::Right, -3),
            ],
            FrameShape::Quad => vec![
                Channel::Placed(Pan::LeftCentre, 0),
                Channel::Placed(Pan::RightCentre, 0),
                Channel::Placed(Pan::Left, -3),
                Channel::Placed(Pan::Right, -3),
            ],
            FrameShape::VertEmph | FrameShape::VertEmph2 => vec![
                Channel::Placed(Pan::Centre, 0),
                Channel::Placed(Pan::Left, -3),
                Channel::Placed(Pan::Right, -3),
                Channel::Placed(Pan::Left, -5),
                Channel::Placed(Pan::Right, -5),
            ],
            FrameShape::HorizEmph | FrameShape::HorizEmph2 => vec![
                Channel::Placed(Pan::Left, -3),
                Channel::Placed(Pan::Centre, 0),
                Channel::Placed(Pan::Centre, -5),
                Channel::Placed(Pan::Right, -3),
            ],
            FrameShape::SideVert => vec![
                Channel::Placed(Pan::Left, 0),
                Channel::Placed(Pan::RightCentre, 0),
                Channel::Placed(Pan::RightCentre, -3),
            ],
            FrameShape::SideVert2 => vec![
                Channel::Placed(Pan::Right, 0),
                Channel::Placed(Pan::LeftCentre, 0),
                Channel::Placed(Pan::LeftCentre, -3),
            ],
            FrameShape::CentreEmphVert | FrameShape::CentreEmphVert2 => vec![
                Channel::Placed(Pan::Centre, 0),
                Channel::Placed(Pan::Left, -2),
                Channel::Placed(Pan::Right, -2),
                Channel::Placed(Pan::LeftCentre, -5),
                Channel::Placed(Pan::RightCentre, -5),
            ],
            FrameShape::MoreHoriz | FrameShape::MoreHoriz2 => vec![
                Channel::Placed(Pan::Centre, 0),
                Channel::Placed(Pan::Left, -2),
                Channel::Placed(Pan::Right, -2),
                Channel::Placed(Pan::LeftCentre, -5),
                Channel::Placed(Pan::RightCentre, -5),
                Channel::Placed(Pan::Left, -2),
                Channel::Placed(Pan::Right, -2),
            ],
            FrameShape::ExtendedLandscape => vec![
                Channel::Placed(Pan::Centre, 0),
                Channel::Placed(Pan::LeftCentre, -5),
                Channel::Placed(Pan::RightCentre, -5),
                Channel::Placed(Pan::Left, -2),
                Channel::Placed(Pan::Right, -2),
                Channel::Placed(Pan::Left, -3),
                Channel::Placed(Pan::Right, -3),
                Channel::Placed(Pan::Left, -3),
                Channel::Placed(Pan::Right, -3),
            ],
            FrameShape::ExtendedLandscape2 => vec![
                Channel::Turned(0),
                Channel::Placed(Pan::LeftCentre, -4),
                Channel::Placed(Pan::Centre, -3),
                Channel::Placed(Pan::RightCentre, -4),
                Channel::Placed(Pan::Left, -5),
                Channel::Placed(Pan::Right, -5),
                Channel::Placed(Pan::Left, -6),
                Channel::Placed(Pan::Right, -6),
            ],
            FrameShape::Mono | FrameShape::OffsetVH4x4 => Vec::new(),
        };
        assert(plan@ =~= self.audio_channels());
        plan
    }

    /// Tells whether the layout has an audio graph.
    pub fn audible(&self) -> (yes: bool)
        ensures
            yes == self.has_audio_graph(),
    {
        !matches!(self, FrameShape::Mono | FrameShape::OffsetVH4x4)
    }

    /// The audio filter graph of the layout: every input is placed in the
    /// stereo field and set to its volume, then all are mixed and the
    /// loudness of the mix is normalised.
    pub fn audio_args_with_vid(&self) -> (out: String)
        requires
            self.has_audio_graph(),
        ensures
            out@ == self.audio_graph(),
    {
        let plan = self.audio_plan();
        let mut graph = FfmAudioText::new();
        let mut i: usize = 0;
        while i < plan.len()
            invariant
                i <= plan@.len(),
                plan@ == self.audio_channels(),
                plan@.len() <= 9,
                forall|k: int|
                    0 <= k < plan@.len() ==> (#[trigger] plan@[k] matches Channel::Turned(angle)
                        ==> -360 <= angle < 360),
                graph.inputs@ == labels(i as nat),
                text_views(graph.text@) == Seq::new(
                    i as nat,
                    |k: int| channel_text(k as nat, plan@[k]),
                ),
            decreases plan@.len() - i,
        {
            let ghost before = text_views(graph.text@);
            assert(graph.text@.len() == before.len());
            graph = graph.add_input();
            let ghost held = graph;
            graph = match plan[i] {
                Channel::Placed(pan, db) => graph.placed(pan, db),
                Channel::Turned(angle) => graph.surround(angle),
            };
            proof {
                assert(graph.inputs@ =~= labels((i + 1) as nat));
                assert(held.text@[i as int]@ == input_text(i as nat)) by {
                    assert(text_views(held.text@)[i as int] == held.text@[i as int]@);
                }
                assert forall|k: int| 0 <= k < i + 1 implies (#[trigger] text_views(graph.text@)[k])
                    == channel_text(k as nat, plan@[k]) by {
                    if k < i {
                        assert(graph.text@[k]@ == held.text@[k]@);
                        assert(text_views(held.text@)[k] == before[k]);
                    }
                }
                assert(text_views(graph.text@) =~= Seq::new(
                    (i + 1) as nat,
                    |k: int| channel_text(k as nat, plan@[k]),
                ));
            }
            i += 1;
        }
        graph.mix_out()
    }
}

} // verus!
