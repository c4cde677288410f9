//! The arguments for the encoder: from the switches of the command line, or
//! from the `Encoder` section of a settings file.

use vstd::prelude::*;
use vstd::string::StringExecFns;

verus! {

/// The keys and values of the section `name` of a settings text in INI
/// form, in the order in which the text gives them, as `ini::Ini` reads
/// them; none where the text cannot be read or has no such section.
pub uninterp spec fn ini_section(text: Seq<char>, name: Seq<char>) -> Option<
    Seq<(Seq<char>, Seq<char>)>,
>;

/// The keys and values of the `Encoder` section of a settings text.
pub open spec fn encoder_section(text: Seq<char>) -> Option<Seq<(Seq<char>, Seq<char>)>> {
    ini_section(text, "Encoder"@)
}

/// The views of the keys and values.
pub open spec fn pair_views(pairs: Seq<(String, String)>) -> Seq<(Seq<char>, Seq<char>)> {
    Seq::new(pairs.len(), |i: int| (pairs[i].0@, pairs[i].1@))
}

/// The views of the texts.
pub open spec fn arg_views(args: Seq<String>) -> Seq<Seq<char>> {
    Seq::new(args.len(), |i: int| args[i]@)
}

/// Reads the section `name` of a settings text with the `ini` crate:
/// `Ini::load_from_str` parses the text, `Ini::section` finds the section,
/// and `Properties::iter` gives its keys and values in the order of the
/// text. The result depends on the text and the name alone.
#[verifier::external_body]
fn read_section(text: &str, name: &str) -> (pairs: Option<Vec<(String, String)>>)
    ensures
        match pairs {
            Some(found) => ini_section(text@, name@) == Some(pair_views(found@)),
            None => ini_section(text@, name@) is None,
        },
{
    match ini::Ini::load_from_str(text) {
        Ok(file) => match file.section(Some(name)) {
            Some(section) => Some(
                section.iter().map(|(k, v)| (k.to_string(), v.to_string())).collect(),
            ),
            None => None,
        },
        Err(_) => None,
    }
}

/// The encoder arguments that a list of keys and values stands for: each
/// key and its value, with `-c:v` in place of the key `video_encoder`.
pub open spec fn settings_args(pairs: Seq<(Seq<char>, Seq<char>)>) -> Seq<Seq<char>>
    decreases pairs.len(),
{
    if pairs.len() == 0 {
        Seq::empty()
    } else {
        settings_args(pairs.drop_last()).push(
            if pairs.last().0 == "video_encoder"@ {
                "-c:v"@
            } else {
                pairs.last().0
            },
        ).push(pairs.last().1)
    }
}

/// The encoder arguments that a list of keys and values stands for.
pub fn args_of_pairs(pairs: Vec<(String, String)>) -> (args: Vec<String>)
    ensures
        arg_views(args@) == settings_args(pair_views(pairs@)),
{
    let mut args: Vec<String> = Vec::new();
    let encoder_key = String::from_str("video_encoder");
    let ghost all = pair_views(pairs@);
    let ghost mut done: int = 0;
    proof {
        assert(all.take(0) =~= Seq::<(Seq<char>, Seq<char>)>::empty());
    }
    for pair in it: pairs
        invariant
            done == it.index(),
            it.seq() == pairs@,
            all == pair_views(pairs@),
            encoder_key@ == "video_encoder"@,
            arg_views(args@) == settings_args(all.take(done)),
    {
        let ghost before = arg_views(args@);
        let (key, value) = pair;
        let ghost key_view = key@;
        let ghost value_view = value@;
        if key == encoder_key {
            args.push(String::from_str("-c:v"));
        } else {
            args.push(key);
        }
        args.push(value);
        proof {
            assert(all.take(done + 1).drop_last() =~= all.take(done));
            assert(all.take(done + 1).last() == (key_view, value_view));
            assert(arg_views(args@) =~= before.push(
                if key_view == "video_encoder"@ {
                    "-c:v"@
                } else {
                    key_view
                },
            ).push(value_view));
            done = done + 1;
        }
    }
    proof {
        assert(all.take(all.len() as int) =~= all);
    }
    args
}

/// The encoder arguments that a settings text gives; none where the text
/// cannot be read or has no `Encoder` section.
pub fn try_check_local_settings(text: &str) -> (args: Option<Vec<String>>)
    ensures
        match args {
            Some(found) => encoder_section(text@) matches Some(pairs) && arg_views(found@)
                == settings_args(pairs),
            None => encoder_section(text@) is None,
        },
{
    match read_section(text, "Encoder") {
        Some(pairs) => Some(args_of_pairs(pairs)),
        None => None,
    }
}

/// Whether the settings file is consulted: where neither the Nvidia
/// hardware nor any codec is asked for on the command line.
pub open spec fn consults_settings(
    hardware_nvidea: bool,
    encode_av1: bool,
    encode_hvec: bool,
    encode_h264: bool,
) -> bool {
    !(hardware_nvidea || encode_h264 || encode_hvec || encode_av1)
}

/// The encoder arguments for the switches of the command line; none where
/// no codec is asked for. AV1 goes before H.265, H.265 before H.264, AMD
/// hardware before Nvidia.
pub open spec fn switch_args(
    hardware_amd: bool,
    hardware_nvidea: bool,
    encode_av1: bool,
    encode_hvec: bool,
    encode_h264: bool,
) -> Option<Seq<Seq<char>>> {
    if !(encode_av1 || encode_hvec || encode_h264) {
        None
    } else if hardware_amd {
        Some(
            seq![
                "-c:v"@,
                if encode_av1 {
                    "av1_amf"@
                } else if encode_hvec {
                    "hevc_amf"@
                } else {
                    "h264_amf"@
                },
                "-rc"@,
                "cqp"@,
                "-qp_i"@,
                "34"@,
                "-qp_p"@,
                "34"@,
            ],
        )
    } else if hardware_nvidea {
        Some(
            seq![
                "-c:v"@,
                if encode_av1 {
                    "av1_nvenc"@
                } else if encode_hvec {
                    "hevc_nvenc"@
                } else {
                    "h264_nvenc"@
                },
                "-preset"@,
                "slow"@,
            ],
        )
    } else if encode_av1 {
        Some(seq!["-c:v"@, "libaom-av1"@])
    } else {
        Some(
            seq![
                "-c:v"@,
                if encode_hvec {
                    "libx265"@
                } else {
                    "libx264"@
                },
                "-speed"@,
                "slow"@,
                "-crf"@,
                "19"@,
            ],
        )
    }
}

/// Tells whether the settings file is consulted.
pub fn wants_settings(
    hardware_nvidea: bool,
    encode_av1: bool,
    encode_hvec: bool,
    encode_h264: bool,
) -> (wanted: bool)
    ensures
        wanted == consults_settings(hardware_nvidea, encode_av1, encode_hvec, encode_h264),
{
    !(hardware_nvidea || encode_h264 || encode_hvec || encode_av1)
}

/// The arguments for the encoder. Where neither the Nvidia hardware nor a
/// codec is asked for and the text of the settings file, if there is one,
/// has an `Encoder` section, the arguments are those of the section.
/// Otherwise they follow from the switches; none where no codec is asked
/// for.
pub fn set_encoder_args(
    hardware_amd: bool,
    hardware_nvidea: bool,
    encode_av1: bool,
    encode_hvec: bool,
    encode_h264: bool,
    settings: Option<&str>,
) -> (args: Option<Vec<String>>)
    ensures
        match args {
            Some(found) => Some(arg_views(found@)) == encoder_args_for(
                hardware_amd,
                hardware_nvidea,
                encode_av1,
                encode_hvec,
                encode_h264,
                match settings {
                    Some(text) => Some(text@),
                    None => None,
                },
            ),
            None => encoder_args_for(
                hardware_amd,
                hardware_nvidea,
                encode_av1,
                encode_hvec,
                encode_h264,
                match settings {
                    Some(text) => Some(text@),
                    None => None,
                },
            ) is None,
        },
{
    if wants_settings(hardware_nvidea, encode_av1, encode_hvec, encode_h264) {
        match settings {
            Some(text) => match try_check_local_settings(text) {
                Some(v) => {
                    return Some(v);
                },
                None => {},
            },
            None => {},
        }
    }
    if !(encode_av1 || encode_hvec || encode_h264) {
        return None;
    }
    let mut args: Vec<String> = Vec::new();
    args.push(String::from_str("-c:v"));
    if hardware_amd {
        if encode_av1 {
            args.push(String::from_str("av1_amf"));
        } else if encode_hvec {
            args.push(String::from_str("hevc_amf"));
        } else {
            args.push(String::from_str("h264_amf"));
        }
        args.push(String::from_str("-rc"));
        args.push(String::from_str("cqp"));
        args.push(String::from_str("-qp_i"));
        args.push(String::from_str("34"));
        args.push(String::from_str("-qp_p"));
        args.push(String::from_str("34"));
    } else if hardware_nvidea {
        if encode_av1 {
            args.push(String::from_str("av1_nvenc"));
        } else if encode_hvec {
            args.push(String::from_str("hevc_nvenc"));
        } else {
            args.push(String::from_str("h264_nvenc"));
        }
        args.push(String::from_str("-preset"));
        args.push(String::from_str("slow"));
    } else if encode_av1 {
        args.push(String::from_str("libaom-av1"));
    } else {
        if encode_hvec {
            args.push(String::from_str("libx265"));
        } else {
            args.push(String::from_str("libx264"));
        }
        args.push(String::from_str("-speed"));
        args.push(String::from_str("slow"));
        args.push(String::from_str("-crf"));
        args.push(String::from_str("19"));
    }
    proof {
        assert(arg_views(args@) =~= switch_args(
            hardware_amd,
            hardware_nvidea,
            encode_av1,
            encode_hvec,
            encode_h264,
        )->Some_0);
    }
    Some(args)
}

/// The arguments for the encoder, given the switches and the text of the
/// settings file, if there is one.
pub open spec fn encoder_args_for(
    hardware_amd: bool,
    hardware_nvidea: bool,
    encode_av1: bool,
    encode_hvec: bool,
    encode_h264: bool,
    settings: Option<Seq<char>>,
) -> Option<Seq<Seq<char>>> {
    if consults_settings(hardware_nvidea, encode_av1, encode_hvec, encode_h264)
        && settings is Some && encoder_section(settings->Some_0) is Some {
        Some(settings_args(encoder_section(settings->Some_0)->Some_0))
    } else {
        switch_args(hardware_amd, hardware_nvidea, encode_av1, encode_hvec, encode_h264)
    }
}

} // verus!
