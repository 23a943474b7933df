//! The command line: which model and images to use, and the camera options.
//!
//! An argument ending in `.onnx` names the model; every other argument names an
//! image. `--camera [INDEX] [FRAMES]` switches to a live camera instead.

use crate::paths::views;
use crate::text::{chars_of, ends_with_chars, equals_chars, has_suffix};
use vstd::prelude::*;

verus! {

/// The model used when no argument names one.
pub const DEFAULT_MODEL: &'static str = "models/hand_landmark_sparse_Nx3x224x224.onnx";

/// The camera device used when `--camera` is not followed by a device index.
pub const DEFAULT_CAMERA_INDEX: i32 = 0;

/// The number of frames grabbed when `--camera` is not followed by a frame count.
pub const DEFAULT_CAMERA_FRAMES: u32 = 30;

pub open spec fn model_suffix() -> Seq<char> {
    seq!['.', 'o', 'n', 'n', 'x']
}

pub open spec fn camera_flag() -> Seq<char> {
    seq!['-', '-', 'c', 'a', 'm', 'e', 'r', 'a']
}

/// The argument names a model.
pub open spec fn is_model_arg(a: Seq<char>) -> bool {
    has_suffix(a, model_suffix())
}

/// The last argument that names a model.
pub open spec fn last_model_arg(args: Seq<Seq<char>>) -> Option<Seq<char>>
    decreases args.len(),
{
    if args.len() == 0 {
        None
    } else if is_model_arg(args.last()) {
        Some(args.last())
    } else {
        last_model_arg(args.drop_last())
    }
}

/// The first argument that names a model.
pub open spec fn first_model_arg(args: Seq<Seq<char>>) -> Option<Seq<char>>
    decreases args.len(),
{
    if args.len() == 0 {
        None
    } else {
        match first_model_arg(args.drop_last()) {
            Some(m) => Some(m),
            None => if is_model_arg(args.last()) {
                Some(args.last())
            } else {
                None
            },
        }
    }
}

/// The arguments that name images, in order.
pub open spec fn image_args(args: Seq<Seq<char>>) -> Seq<Seq<char>>
    decreases args.len(),
{
    if args.len() == 0 {
        Seq::empty()
    } else if is_model_arg(args.last()) {
        image_args(args.drop_last())
    } else {
        image_args(args.drop_last()).push(args.last())
    }
}

/// The position of the first `--camera` argument.
pub open spec fn camera_flag_position(args: Seq<Seq<char>>) -> Option<int>
    decreases args.len(),
{
    if args.len() == 0 {
        None
    } else {
        match camera_flag_position(args.drop_last()) {
            Some(p) => Some(p),
            None => if args.last() == camera_flag() {
                Some(args.len() - 1)
            } else {
                None
            },
        }
    }
}

/// A model path: the one an argument names, else the default.
pub open spec fn model_or_default(m: Option<Seq<char>>) -> Seq<char> {
    match m {
        Some(p) => p,
        None => DEFAULT_MODEL@,
    }
}

/// The decimal digits `0` to `9`.
pub open spec fn is_decimal_digit(c: char) -> bool {
    '0' as int <= c as int <= '9' as int
}

/// One or more decimal digits and nothing else.
pub open spec fn all_decimal_digits(s: Seq<char>) -> bool {
    s.len() > 0 && forall|i: int| 0 <= i < s.len() ==> is_decimal_digit(#[trigger] s[i])
}

/// The number that a string of decimal digits spells.
pub open spec fn decimal_value(s: Seq<char>) -> int
    decreases s.len(),
{
    if s.len() == 0 {
        0
    } else {
        decimal_value(s.drop_last()) * 10 + (s.last() as int - '0' as int)
    }
}

/// What `str::parse::<i32>` gives: an optional `+` or `-` sign followed by only
/// decimal digits, whose value fits in an `i32`.
pub open spec fn parsed_i32(s: Seq<char>) -> Option<i32> {
    let signed = s.len() > 0 && (s[0] == '+' || s[0] == '-');
    let digits = if signed {
        s.drop_first()
    } else {
        s
    };
    let value = if s.len() > 0 && s[0] == '-' {
        -decimal_value(digits)
    } else {
        decimal_value(digits)
    };
    if all_decimal_digits(digits) && i32::MIN <= value <= i32::MAX {
        Some(value as i32)
    } else {
        None
    }
}

/// What `str::parse::<u32>` gives: an optional `+` sign followed by only decimal
/// digits, whose value fits in a `u32`.
pub open spec fn parsed_u32(s: Seq<char>) -> Option<u32> {
    let digits = if s.len() > 0 && s[0] == '+' {
        s.drop_first()
    } else {
        s
    };
    if all_decimal_digits(digits) && decimal_value(digits) <= u32::MAX {
        Some(decimal_value(digits) as u32)
    } else {
        None
    }
}

/// Parses a decimal `i32` with `str::parse::<i32>`, as the documentation of
/// `i32::from_str` describes it: an optional `+` or `-` sign followed by only the
/// digits `0` to `9`, the value in range; anything else is an error.
#[verifier::external_body]
fn parse_i32(s: &str) -> (r: Option<i32>)
    ensures
        r == parsed_i32(s@),
{
    s.parse::<i32>().ok()
}

/// Parses a decimal `u32` with `str::parse::<u32>`, as the documentation of
/// `u32::from_str` describes it: an optional `+` sign followed by only the digits
/// `0` to `9`, the value in range; anything else is an error.
#[verifier::external_body]
fn parse_u32(s: &str) -> (r: Option<u32>)
    ensures
        r == parsed_u32(s@),
{
    s.parse::<u32>().ok()
}

/// Splits the arguments into the model path and the image paths.
///
/// The model is the last argument ending in `.onnx`, else `DEFAULT_MODEL`; the
/// images are all the other arguments, in order, or `default_images` when there
/// are none.
pub fn parse_args(args: &Vec<String>, default_images: Vec<String>) -> (r: (String, Vec<String>))
    ensures
        r.0@ == model_or_default(last_model_arg(views(args@))),
        views(r.1@) == if image_args(views(args@)).len() > 0 {
            image_args(views(args@))
        } else {
            views(default_images@)
        },
        (exists|i: int| 0 <= i < args@.len() && ends_in_onnx(#[trigger] args@[i]@)) ==> exists|k: int|
            0 <= k < args@.len() && ends_in_onnx(#[trigger] args@[k]@) && r.0@ == args@[k]@ && forall|
                j: int,
            | k < j < args@.len() ==> !ends_in_onnx(#[trigger] args@[j]@),
        (forall|i: int| 0 <= i < args@.len() ==> !ends_in_onnx(#[trigger] args@[i]@)) ==> r.0@
            == DEFAULT_MODEL@,
        views(r.1@) == if views(args@).filter(|a: Seq<char>| !ends_in_onnx(a)).len() > 0 {
            views(args@).filter(|a: Seq<char>| !ends_in_onnx(a))
        } else {
            views(default_images@)
        },
{
    let suffix = ['.', 'o', 'n', 'n', 'x'];
    assert(suffix@ =~= model_suffix());
    let mut model: Option<usize> = None;
    let mut images: Vec<String> = Vec::new();
    let n = args.len();
    let mut i: usize = 0;
    assert(views(args@).take(0) =~= Seq::<Seq<char>>::empty());
    assert(views(images@) =~= Seq::<Seq<char>>::empty());
    while i < n
        invariant
            n == args@.len(),
            i <= n,
            suffix@ == model_suffix(),
            match model {
                Some(m) => m < i && last_model_arg(views(args@).take(i as int)) == Some(
                    args@[m as int]@,
                ),
                None => last_model_arg(views(args@).take(i as int)) is None,
            },
            views(images@) == image_args(views(args@).take(i as int)),
        decreases n - i,
    {
        let arg = chars_of(args[i].as_str());
        proof {
            assert(views(args@).take(i + 1).drop_last() =~= views(args@).take(i as int));
            assert(views(args@).take(i + 1).last() == arg@);
        }
        if ends_with_chars(&arg, &suffix) {
            model = Some(i);
        } else {
            let ghost before = images@;
            images.push(args[i].clone());
            assert(views(images@) =~= views(before).push(arg@));
        }
        i = i + 1;
    }
    assert(views(args@).take(n as int) =~= views(args@));
    let model_path = match model {
        Some(m) => args[m].clone(),
        None => DEFAULT_MODEL.to_owned(),
    };
    let r = if images.len() > 0 {
        (model_path, images)
    } else {
        (model_path, default_images)
    };
    proof {
        lemma_parse_args_law(views(args@), views(default_images@), r.0@, views(r.1@));
        assert forall|i: int| 0 <= i < args@.len() implies #[trigger] args@[i]@ == views(args@)[i] by {}
    }
    r
}

/// What `--camera [INDEX] [FRAMES]` asks for.
pub struct CameraArgs {
    /// The camera device.
    pub index: i32,
    /// How many frames to grab.
    pub frames: u32,
    /// The model path.
    pub model: String,
}

/// The camera index that the argument after `--camera`, at position `p`, gives.
pub open spec fn camera_index_arg(args: Seq<Seq<char>>, p: int) -> i32 {
    if p + 1 < args.len() {
        match parsed_i32(args[p + 1]) {
            Some(v) => v,
            None => DEFAULT_CAMERA_INDEX,
        }
    } else {
        DEFAULT_CAMERA_INDEX
    }
}

/// The frame count that the second argument after `--camera`, at position `p`, gives.
pub open spec fn camera_frames_arg(args: Seq<Seq<char>>, p: int) -> u32 {
    if p + 2 < args.len() {
        match parsed_u32(args[p + 2]) {
            Some(v) => v,
            None => DEFAULT_CAMERA_FRAMES,
        }
    } else {
        DEFAULT_CAMERA_FRAMES
    }
}

/// The camera options, when an argument is `--camera`.
///
/// The first `--camera` argument may be followed by a device index and a frame
/// count; one that is missing or does not parse takes its default. The model is
/// the first argument, anywhere, that ends in `.onnx`, else `DEFAULT_MODEL`.
pub fn parse_camera_args(args: &Vec<String>) -> (r: Option<CameraArgs>)
    ensures
        r is Some <==> camera_flag_position(views(args@)) is Some,
        r matches Some(c) ==> {
            let p = camera_flag_position(views(args@)).unwrap();
            &&& c.index == camera_index_arg(views(args@), p)
            &&& c.frames == camera_frames_arg(views(args@), p)
            &&& c.model@ == model_or_default(first_model_arg(views(args@)))
        },
        r matches Some(c) ==> {
            let p = camera_flag_position(views(args@)).unwrap();
            &&& 0 <= p < args@.len()
            &&& is_camera_flag(args@[p]@)
            &&& forall|j: int| 0 <= j < p ==> !is_camera_flag(#[trigger] args@[j]@)
            &&& p + 1 < args@.len() && parsed_i32(args@[p + 1]@) is Some ==> c.index == parsed_i32(
                args@[p + 1]@,
            ).unwrap()
            &&& (p + 1 >= args@.len() || parsed_i32(args@[p + 1]@) is None) ==> c.index == 0
            &&& p + 2 < args@.len() && parsed_u32(args@[p + 2]@) is Some ==> c.frames == parsed_u32(
                args@[p + 2]@,
            ).unwrap()
            &&& (p + 2 >= args@.len() || parsed_u32(args@[p + 2]@) is None) ==> c.frames == 30
        },
        r is None ==> forall|j: int| 0 <= j < args@.len() ==> !is_camera_flag(#[trigger] args@[j]@),
{
    let flag = ['-', '-', 'c', 'a', 'm', 'e', 'r', 'a'];
    let suffix = ['.', 'o', 'n', 'n', 'x'];
    assert(flag@ =~= camera_flag());
    assert(suffix@ =~= model_suffix());
    let n = args.len();
    let mut position: Option<usize> = None;
    let mut model: Option<usize> = None;
    let mut i: usize = 0;
    assert(views(args@).take(0) =~= Seq::<Seq<char>>::empty());
    while i < n
        invariant
            n == args@.len(),
            i <= n,
            flag@ == camera_flag(),
            suffix@ == model_suffix(),
            match position {
                Some(p) => p < i && camera_flag_position(views(args@).take(i as int)) == Some(
                    p as int,
                ),
                None => camera_flag_position(views(args@).take(i as int)) is None,
            },
            match model {
                Some(m) => m < i && first_model_arg(views(args@).take(i as int)) == Some(
                    args@[m as int]@,
                ),
                None => first_model_arg(views(args@).take(i as int)) is None,
            },
        decreases n - i,
    {
        let arg = chars_of(args[i].as_str());
        proof {
            assert(views(args@).take(i + 1).drop_last() =~= views(args@).take(i as int));
            assert(views(args@).take(i + 1).last() == arg@);
        }
        if position.is_none() && equals_chars(&arg, &flag) {
            position = Some(i);
        }
        if model.is_none() && ends_with_chars(&arg, &suffix) {
            model = Some(i);
        }
        i = i + 1;
    }
    assert(views(args@).take(n as int) =~= views(args@));
    match position {
        None => {
            proof {
                lemma_camera_flag_position_literal(views(args@));
                assert forall|j: int| 0 <= j < args@.len() implies #[trigger] args@[j]@ == views(
                    args@,
                )[j] by {}
            }
            None
        },
        Some(p) => {
            let index = if n - p > 1 {
                match parse_i32(args[p + 1].as_str()) {
                    Some(v) => v,
                    None => DEFAULT_CAMERA_INDEX,
                }
            } else {
                DEFAULT_CAMERA_INDEX
            };
            let frames = if n - p > 2 {
                match parse_u32(args[p + 2].as_str()) {
                    Some(v) => v,
                    None => DEFAULT_CAMERA_FRAMES,
                }
            } else {
                DEFAULT_CAMERA_FRAMES
            };
            let model_path = match model {
                Some(m) => args[m].clone(),
                None => DEFAULT_MODEL.to_owned(),
            };
            let c = CameraArgs { index, frames, model: model_path };
            proof {
                lemma_camera_args_law(views(args@), p as int, c);
                assert forall|j: int| 0 <= j < args@.len() implies #[trigger] args@[j]@ == views(
                    args@,
                )[j] by {}
            }
            Some(c)
        },
    }
}

} // verus!

verus! {

/// `a` ends in the five characters `.onnx`, whatever precedes them.
pub open spec fn ends_in_onnx(a: Seq<char>) -> bool {
    a.len() >= 5 && a.subrange(a.len() - 5, a.len() as int) =~= seq!['.', 'o', 'n', 'n', 'x']
}

/// `a` is the eight characters `--camera`.
pub open spec fn is_camera_flag(a: Seq<char>) -> bool {
    a =~= seq!['-', '-', 'c', 'a', 'm', 'e', 'r', 'a']
}

proof fn lemma_model_arg_is_onnx_suffix(a: Seq<char>)
    ensures
        is_model_arg(a) == ends_in_onnx(a),
{
}

proof fn lemma_last_model_arg_literal(args: Seq<Seq<char>>)
    ensures
        match last_model_arg(args) {
            Some(m) => exists|k: int|
                0 <= k < args.len() && ends_in_onnx(#[trigger] args[k]) && m == args[k] && forall|
                    j: int,
                | k < j < args.len() ==> !ends_in_onnx(#[trigger] args[j]),
            None => forall|j: int| 0 <= j < args.len() ==> !ends_in_onnx(#[trigger] args[j]),
        },
    decreases args.len(),
{
    if args.len() > 0 {
        let rest = args.drop_last();
        lemma_last_model_arg_literal(rest);
        lemma_model_arg_is_onnx_suffix(args.last());
        if is_model_arg(args.last()) {
            let k = args.len() - 1;
            assert(ends_in_onnx(args[k]));
        } else {
            match last_model_arg(rest) {
                Some(m) => {
                    let k = choose|k: int|
                        0 <= k < rest.len() && ends_in_onnx(#[trigger] rest[k]) && m == rest[k]
                            && forall|j: int| k < j < rest.len() ==> !ends_in_onnx(#[trigger] rest[j]);
                    assert(args[k] == rest[k]);
                    assert forall|j: int| k < j < args.len() implies !ends_in_onnx(#[trigger] args[j]) by {
                        if j < rest.len() {
                            assert(args[j] == rest[j]);
                        }
                    }
                },
                None => {
                    assert forall|j: int| 0 <= j < args.len() implies !ends_in_onnx(#[trigger] args[j]) by {
                        if j < rest.len() {
                            assert(args[j] == rest[j]);
                        }
                    }
                },
            }
        }
    }
}

proof fn lemma_first_model_arg_literal(args: Seq<Seq<char>>)
    ensures
        match first_model_arg(args) {
            Some(m) => exists|k: int|
                0 <= k < args.len() && ends_in_onnx(#[trigger] args[k]) && m == args[k] && forall|
                    j: int,
                | 0 <= j < k ==> !ends_in_onnx(#[trigger] args[j]),
            None => forall|j: int| 0 <= j < args.len() ==> !ends_in_onnx(#[trigger] args[j]),
        },
    decreases args.len(),
{
    if args.len() > 0 {
        let rest = args.drop_last();
        lemma_first_model_arg_literal(rest);
        lemma_model_arg_is_onnx_suffix(args.last());
        match first_model_arg(rest) {
            Some(m) => {
                let k = choose|k: int|
                    0 <= k < rest.len() && ends_in_onnx(#[trigger] rest[k]) && m == rest[k] && forall|
                        j: int,
                    | 0 <= j < k ==> !ends_in_onnx(#[trigger] rest[j]);
                assert(args[k] == rest[k]);
                assert forall|j: int| 0 <= j < k implies !ends_in_onnx(#[trigger] args[j]) by {
                    assert(args[j] == rest[j]);
                }
            },
            None => {
                assert forall|j: int| 0 <= j < rest.len() implies !ends_in_onnx(#[trigger] args[j]) by {
                    assert(args[j] == rest[j]);
                }
                if is_model_arg(args.last()) {
                    let k = args.len() - 1;
                    assert(ends_in_onnx(args[k]));
                }
            },
        }
    }
}

proof fn lemma_camera_flag_position_literal(args: Seq<Seq<char>>)
    ensures
        match camera_flag_position(args) {
            Some(p) => 0 <= p < args.len() && is_camera_flag(args[p]) && forall|j: int|
                0 <= j < p ==> !is_camera_flag(#[trigger] args[j]),
            None => forall|j: int| 0 <= j < args.len() ==> !is_camera_flag(#[trigger] args[j]),
        },
    decreases args.len(),
{
    if args.len() > 0 {
        let rest = args.drop_last();
        lemma_camera_flag_position_literal(rest);
        assert forall|j: int| 0 <= j < rest.len() implies args[j] == rest[j] by {}
    }
}

proof fn lemma_image_args_filter(args: Seq<Seq<char>>)
    ensures
        image_args(args) == args.filter(|a: Seq<char>| !ends_in_onnx(a)),
    decreases args.len(),
{
    reveal_with_fuel(Seq::<_>::filter, 1);
    if args.len() > 0 {
        lemma_image_args_filter(args.drop_last());
        lemma_model_arg_is_onnx_suffix(args.last());
    }
}

/// What `parse_args` returns, stated over the `.onnx` suffix itself: the model is the
/// last argument that ends in `.onnx` (whatever precedes the suffix), or the default
/// when none does; the images are exactly the arguments that do not end in `.onnx`,
/// in order, or the default images when there are none.
pub proof fn lemma_parse_args_law(
    args: Seq<Seq<char>>,
    default_images: Seq<Seq<char>>,
    model: Seq<char>,
    images: Seq<Seq<char>>,
)
    requires
        model == model_or_default(last_model_arg(args)),
        images == if image_args(args).len() > 0 {
            image_args(args)
        } else {
            default_images
        },
    ensures
        (exists|i: int| 0 <= i < args.len() && ends_in_onnx(#[trigger] args[i])) ==> exists|k: int|
            0 <= k < args.len() && ends_in_onnx(#[trigger] args[k]) && model == args[k] && forall|
                j: int,
            | k < j < args.len() ==> !ends_in_onnx(#[trigger] args[j]),
        (forall|i: int| 0 <= i < args.len() ==> !ends_in_onnx(#[trigger] args[i])) ==> model
            == DEFAULT_MODEL@,
        images == if args.filter(|a: Seq<char>| !ends_in_onnx(a)).len() > 0 {
            args.filter(|a: Seq<char>| !ends_in_onnx(a))
        } else {
            default_images
        },
        args.filter(|a: Seq<char>| !ends_in_onnx(a)).len() > 0 ==> forall|j: int|
            0 <= j < images.len() ==> !ends_in_onnx(#[trigger] images[j]),
{
    lemma_last_model_arg_literal(args);
    lemma_image_args_filter(args);
    let kept = args.filter(|a: Seq<char>| !ends_in_onnx(a));
    if kept.len() > 0 {
        assert forall|j: int| 0 <= j < images.len() implies !ends_in_onnx(#[trigger] images[j]) by {
            broadcast use vstd::seq_lib::group_filter_ensures;

        }
    }
}

/// What `parse_camera_args` returns, stated over the arguments themselves: the flag is
/// the first argument equal to `--camera`; the index is the next argument whenever
/// that one parses as an `i32`, whether or not more arguments follow, else 0; the frame
/// count is the argument after that whenever it parses as a `u32`, else 30; the model is
/// the first argument ending in `.onnx`, else the default.
pub proof fn lemma_camera_args_law(args: Seq<Seq<char>>, p: int, c: CameraArgs)
    requires
        camera_flag_position(args) == Some(p),
        c.index == camera_index_arg(args, p),
        c.frames == camera_frames_arg(args, p),
        c.model@ == model_or_default(first_model_arg(args)),
    ensures
        0 <= p < args.len(),
        is_camera_flag(args[p]),
        forall|j: int| 0 <= j < p ==> !is_camera_flag(#[trigger] args[j]),
        p + 1 < args.len() && parsed_i32(args[p + 1]) is Some ==> c.index == parsed_i32(
            args[p + 1],
        ).unwrap(),
        (p + 1 >= args.len() || parsed_i32(args[p + 1]) is None) ==> c.index == 0,
        p + 2 < args.len() && parsed_u32(args[p + 2]) is Some ==> c.frames == parsed_u32(
            args[p + 2],
        ).unwrap(),
        (p + 2 >= args.len() || parsed_u32(args[p + 2]) is None) ==> c.frames == 30,
        (exists|i: int| 0 <= i < args.len() && ends_in_onnx(#[trigger] args[i])) ==> exists|k: int|
            0 <= k < args.len() && ends_in_onnx(#[trigger] args[k]) && c.model@ == args[k] && forall|
                j: int,
            | 0 <= j < k ==> !ends_in_onnx(#[trigger] args[j]),
        (forall|i: int| 0 <= i < args.len() ==> !ends_in_onnx(#[trigger] args[i])) ==> c.model@
            == DEFAULT_MODEL@,
{
    lemma_camera_flag_position_literal(args);
    lemma_first_model_arg_literal(args);
}

} // verus!
