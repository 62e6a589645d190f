//! Command-line parsing: the subcommand, its options and image paths, sizes
//! such as `256K`, and disk orders such as `0,1,2,3`.
use vstd::prelude::*;

use crate::detect::spec_format_size;
use crate::text::{
    decimal, is_white, lemma_decimal_digits, lemma_trim_no_white, lower_char,
    ascii_lower, chars_of, chars_strip_suffix, concat3, ends_with, lowercase_chars,
    parse_usize, spec_parse_usize, split_chars, split_on, starts_with_char, str_eq, string_of,
    strip_suffix, trim, trim_chars,
};

verus! {

/// The characters of each argument.
pub open spec fn arg_views(args: Seq<String>) -> Seq<Seq<char>> {
    Seq::new(args.len(), |i: int| args[i]@)
}

/// The characters of an optional string.
pub open spec fn opt_view(o: Option<String>) -> Option<Seq<char>> {
    match o {
        Some(s) => Some(s@),
        None => None,
    }
}

/// The options that take the next argument as their value.
pub open spec fn spec_option_takes_value(o: Seq<char>) -> bool {
    ||| o == "--block-size"@ || o == "--max-blocks"@ || o == "--output"@ || o == "-o"@
    ||| o == "--markdown"@ || o == "--top"@ || o == "--stripe"@ || o == "--raid"@
    ||| o == "--order"@ || o == "--layout"@ || o == "--missing"@
}

/// Whether `option` takes the next argument as its value.
pub fn option_takes_value(option: &str) -> (r: bool)
    ensures
        r == spec_option_takes_value(option@),
{
    str_eq(option, "--block-size") || str_eq(option, "--max-blocks") || str_eq(option, "--output")
        || str_eq(option, "-o") || str_eq(option, "--markdown") || str_eq(option, "--top")
        || str_eq(option, "--stripe") || str_eq(option, "--raid") || str_eq(option, "--order")
        || str_eq(option, "--layout") || str_eq(option, "--missing")
}

/// The argument right after the first occurrence of `name`, if there is one.
pub open spec fn spec_value_after(args: Seq<Seq<char>>, name: Seq<char>) -> Option<Seq<char>>
    decreases args.len(),
{
    if args.len() < 2 {
        None
    } else if args[0] == name {
        Some(args[1])
    } else {
        spec_value_after(args.drop_first(), name)
    }
}

/// The value given to option `name` (see `spec_value_after`).
pub fn value_after(args: &[String], name: &str) -> (r: Option<String>)
    ensures
        opt_view(r) == spec_value_after(arg_views(args@), name@),
{
    let ghost views = arg_views(args@);
    if args.len() < 2 {
        return None;
    }
    let last = args.len() - 1;
    let mut i: usize = 0;
    assert(views.skip(0) =~= views);
    while i < last
        invariant
            last == args@.len() - 1,
            views == arg_views(args@),
            i <= last,
            spec_value_after(views, name@) == spec_value_after(views.skip(i as int), name@),
        decreases last - i,
    {
        assert(views.skip(i as int)[0] == args@[i as int]@);
        assert(views.skip(i as int)[1] == args@[i + 1]@);
        if str_eq(args[i].as_str(), name) {
            return Some(args[i + 1].clone());
        }
        assert(views.skip(i as int).drop_first() =~= views.skip(i + 1));
        i = i + 1;
    }
    None
}

/// The value of a required option, or the error naming it.
pub open spec fn spec_required_value(args: Seq<Seq<char>>, name: Seq<char>) -> Result<Seq<char>, Seq<char>> {
    match spec_value_after(args, name) {
        Some(v) => Ok(v),
        None => Err(name + " is required"@),
    }
}

/// The value of option `name`, which must be given.
pub fn required_value(args: &[String], name: &str) -> (r: Result<String, String>)
    ensures
        match r {
            Ok(v) => spec_required_value(arg_views(args@), name@) == Ok::<Seq<char>, Seq<char>>(v@),
            Err(e) => spec_required_value(arg_views(args@), name@) == Err::<Seq<char>, Seq<char>>(e@),
        },
{
    let found = value_after(args, name);
    if let Some(v) = found {
        return Ok(v);
    }
    proof {
        reveal_strlit("");
        assert(""@ + name@ =~= name@);
    }
    Err(concat3("", name, " is required"))
}

/// The number part and the multiplier of a size: surrounding white space is
/// ignored, case too, and a `kb`/`k` suffix means KiB, `mb`/`m` MiB.
pub open spec fn size_parts(value: Seq<char>) -> (Seq<char>, nat) {
    let lower = ascii_lower(trim(value));
    if ends_with(lower, "kb"@) {
        (strip_suffix(lower, "kb"@), 1024)
    } else if ends_with(lower, "k"@) {
        (strip_suffix(lower, "k"@), 1024)
    } else if ends_with(lower, "mb"@) {
        (strip_suffix(lower, "mb"@), 1048576)
    } else if ends_with(lower, "m"@) {
        (strip_suffix(lower, "m"@), 1048576)
    } else {
        (lower, 1)
    }
}

/// A size whose number, times its multiplier, still fits in `usize`
/// (sizes that are not numbers at all fit too: they are rejected).
pub open spec fn size_fits(value: Seq<char>) -> bool {
    match spec_parse_usize(trim(size_parts(value).0)) {
        Some(n) => n * size_parts(value).1 <= usize::MAX,
        None => true,
    }
}

/// The size in bytes that `value` gives, or the error for it.
pub open spec fn spec_parse_size(value: Seq<char>) -> Result<usize, Seq<char>> {
    match spec_parse_usize(trim(size_parts(value).0)) {
        Some(n) => Ok((n * size_parts(value).1) as usize),
        None => Err("invalid size '"@ + value + "'"@),
    }
}

/// Whether the size `value` can be parsed without its byte count
/// overflowing `usize` (see `size_fits`).
pub fn size_in_range(value: &str) -> (r: bool)
    ensures
        r == size_fits(value@),
{
    let (number, multiplier) = split_size(value);
    match parse_usize(&trim_chars(&number)) {
        Some(n) => match n.checked_mul(multiplier) {
            Some(_) => true,
            None => false,
        },
        None => true,
    }
}

fn split_size(value: &str) -> (r: (Vec<char>, usize))
    ensures
        r.0@ == size_parts(value@).0,
        r.1 as nat == size_parts(value@).1,
{
    let trimmed = trim_chars(&chars_of(value));
    let lower = lowercase_chars(&trimmed);
    if let Some(num) = chars_strip_suffix(&lower, "kb") {
        (num, 1024)
    } else if let Some(num) = chars_strip_suffix(&lower, "k") {
        (num, 1024)
    } else if let Some(num) = chars_strip_suffix(&lower, "mb") {
        (num, 1024 * 1024)
    } else if let Some(num) = chars_strip_suffix(&lower, "m") {
        (num, 1024 * 1024)
    } else {
        (lower, 1)
    }
}

/// Parses a size such as `512`, `64K` or `1MB` into bytes (see
/// `spec_parse_size`).
pub fn parse_size(value: &str) -> (r: Result<usize, String>)
    requires
        size_fits(value@),
    ensures
        match r {
            Ok(n) => spec_parse_size(value@) == Ok::<usize, Seq<char>>(n),
            Err(e) => spec_parse_size(value@) == Err::<usize, Seq<char>>(e@),
        },
{
    let (number, multiplier) = split_size(value);
    match parse_usize(&trim_chars(&number)) {
        Some(n) => Ok(n * multiplier),
        None => Err(concat3("invalid size '", value, "'")),
    }
}

/// The disk numbers of a comma-separated order, each part trimmed; the
/// error names the first part that is not a number.
pub open spec fn parse_order_parts(parts: Seq<Seq<char>>) -> Result<Seq<usize>, Seq<char>>
    decreases parts.len(),
{
    if parts.len() == 0 {
        Ok(Seq::empty())
    } else {
        match parse_order_parts(parts.drop_last()) {
            Err(e) => Err(e),
            Ok(r) => match spec_parse_usize(trim(parts.last())) {
                Some(n) => Ok(r.push(n)),
                None => Err("invalid disk order entry '"@ + parts.last() + "'"@),
            },
        }
    }
}

/// The disk order that `value` gives, or the error for it.
pub open spec fn spec_parse_order(value: Seq<char>) -> Result<Seq<usize>, Seq<char>> {
    parse_order_parts(split_on(value, ','))
}

/// Parses a disk order such as `0,1,2,3`.
pub fn parse_order(value: &str) -> (r: Result<Vec<usize>, String>)
    ensures
        match r {
            Ok(v) => spec_parse_order(value@) == Ok::<Seq<usize>, Seq<char>>(v@),
            Err(e) => spec_parse_order(value@) == Err::<Seq<usize>, Seq<char>>(e@),
        },
{
    let chars = chars_of(value);
    let parts = split_chars(&chars, ',');
    let ghost views = crate::text::char_views(parts@);
    let mut out: Vec<usize> = Vec::new();
    let mut i: usize = 0;
    while i < parts.len()
        invariant
            views == crate::text::char_views(parts@),
            views == split_on(value@, ','),
            i <= parts@.len(),
            parse_order_parts(views.take(i as int)) == Ok::<Seq<usize>, Seq<char>>(out@),
        decreases parts@.len() - i,
    {
        assert(views.take(i + 1).drop_last() =~= views.take(i as int));
        assert(views.take(i + 1).last() == parts@[i as int]@);
        match parse_usize(&trim_chars(&parts[i])) {
            Some(n) => {
                out.push(n);
            },
            None => {
                let part = string_of(&parts[i]);
                proof {
                    lemma_parse_order_error_stays(views, i as int);
                }
                return Err(concat3("invalid disk order entry '", part.as_str(), "'"));
            },
        }
        i = i + 1;
    }
    assert(views.take(i as int) =~= views);
    Ok(out)
}

proof fn lemma_parse_order_error_stays(parts: Seq<Seq<char>>, i: int)
    requires
        0 <= i < parts.len(),
        parse_order_parts(parts.take(i + 1)) is Err,
    ensures
        parse_order_parts(parts) == parse_order_parts(parts.take(i + 1)),
    decreases parts.len() - i,
{
    if i + 1 == parts.len() {
        assert(parts.take(i + 1) =~= parts);
    } else {
        assert(parts.drop_last().take(i + 1) =~= parts.take(i + 1));
        lemma_parse_order_error_stays(parts.drop_last(), i);
    }
}


/// The options every subcommand shares: the image paths, the block size
/// and how many blocks to sample.
pub struct CommonOptions {
    pub images: Vec<String>,
    pub block_size: usize,
    pub max_blocks: usize,
}

/// `CommonOptions` as character sequences.
pub struct CommonView {
    pub images: Seq<Seq<char>>,
    pub block_size: usize,
    pub max_blocks: usize,
}

impl View for CommonOptions {
    type V = CommonView;

    open spec fn view(&self) -> CommonView {
        CommonView { images: arg_views(self.images@), block_size: self.block_size, max_blocks: self.max_blocks }
    }
}

/// Argument `a` is an option: it starts with `-`.
pub open spec fn is_option(a: Seq<char>) -> bool {
    a.len() > 0 && a[0] == '-'
}

/// The image paths among `args`: every argument that is not an option and
/// is not the value of an option that takes one.
pub open spec fn spec_positional(args: Seq<Seq<char>>) -> Seq<Seq<char>>
    decreases args.len(),
{
    if args.len() == 0 {
        Seq::empty()
    } else if is_option(args[0]) {
        let step: int = if spec_option_takes_value(args[0]) { 2 } else { 1 };
        if step >= args.len() {
            Seq::empty()
        } else {
            spec_positional(args.skip(step))
        }
    } else {
        seq![args[0]] + spec_positional(args.drop_first())
    }
}

/// The image paths among `args[from..]`.
pub open spec fn positional_from(args: Seq<Seq<char>>, from: int) -> Seq<Seq<char>> {
    if from >= args.len() {
        Seq::empty()
    } else {
        spec_positional(args.skip(from))
    }
}

/// The sizes the shared options parse fit in `usize` (see `size_fits`).
pub open spec fn common_sizes_fit(args: Seq<Seq<char>>) -> bool {
    spec_value_after(args, "--block-size"@) matches Some(v) ==> size_fits(v)
}

/// What the shared options give: the block size (512 by default), the
/// number of blocks to sample (1 500 000 by default, or when the value is
/// not a number) and the image paths, of which there must be one at least.
pub open spec fn spec_parse_common(args: Seq<Seq<char>>) -> Result<CommonView, Seq<char>> {
    let block_size = match spec_value_after(args, "--block-size"@) {
        Some(v) => spec_parse_size(v),
        None => Ok(512usize),
    };
    match block_size {
        Err(e) => Err(e),
        Ok(b) => {
            let max_blocks = match spec_value_after(args, "--max-blocks"@) {
                Some(v) => match spec_parse_usize(v) {
                    Some(m) => m,
                    None => 1500000usize,
                },
                None => 1500000usize,
            };
            let images = spec_positional(args);
            if images.len() == 0 {
                Err("at least one image path is required"@)
            } else {
                Ok(CommonView { images, block_size: b, max_blocks })
            }
        },
    }
}

/// Parses the options that every subcommand shares.
pub fn parse_common(args: &[String]) -> (r: Result<CommonOptions, String>)
    requires
        args@.len() < usize::MAX,
        common_sizes_fit(arg_views(args@)),
    ensures
        match r {
            Ok(c) => spec_parse_common(arg_views(args@)) == Ok::<CommonView, Seq<char>>(c@),
            Err(e) => spec_parse_common(arg_views(args@)) == Err::<CommonView, Seq<char>>(e@),
        },
{
    let ghost views = arg_views(args@);
    let block_size = match value_after(args, "--block-size") {
        Some(v) => match parse_size(v.as_str()) {
            Ok(b) => b,
            Err(e) => return Err(e),
        },
        None => 512,
    };
    let max_blocks = match value_after(args, "--max-blocks") {
        Some(v) => match parse_usize(&chars_of(v.as_str())) {
            Some(m) => m,
            None => 1_500_000,
        },
        None => 1_500_000,
    };
    let mut images: Vec<String> = Vec::new();
    let mut i: usize = 0;
    assert(views.skip(0) =~= views);
    while i < args.len()
        invariant
            views == arg_views(args@),
            args@.len() < usize::MAX,
            i <= args@.len() + 1,
            arg_views(images@) + positional_from(views, i as int) == spec_positional(views),
        decreases args@.len() + 1 - i,
    {
        let ghost rest = views.skip(i as int);
        assert(rest[0] == args@[i as int]@);
        assert(rest.drop_first() =~= views.skip(i + 1));
        let arg = &args[i];
        if starts_with_char(arg.as_str(), '-') {
            let step: usize = if option_takes_value(arg.as_str()) { 2 } else { 1 };
            proof {
                if (step as int) < rest.len() {
                    assert(rest.skip(step as int) =~= views.skip(i + step));
                }
            }
            i = i + step;
            continue;
        }
        let ghost before = images@;
        images.push(arg.clone());
        assert(arg_views(images@) =~= arg_views(before).push(args@[i as int]@));
        assert(arg_views(images@) + positional_from(views, i + 1) =~=
            arg_views(before) + (seq![rest[0]] + spec_positional(rest.drop_first())));
        i = i + 1;
    }
    assert(positional_from(views, i as int) == Seq::<Seq<char>>::empty());
    assert(arg_views(images@) =~= spec_positional(views));
    if images.len() == 0 {
        return Err(String::from_str("at least one image path is required"));
    }
    Ok(CommonOptions { images, block_size, max_blocks })
}


/// What `detect` was asked to do.
pub struct DetectRequest {
    pub common: CommonOptions,
    pub output: Option<String>,
    pub markdown: Option<String>,
    pub top: usize,
    pub stripe: Option<usize>,
    pub raid: String,
}

/// `DetectRequest` as character sequences.
pub struct DetectView {
    pub common: CommonView,
    pub output: Option<Seq<char>>,
    pub markdown: Option<Seq<char>>,
    pub top: usize,
    pub stripe: Option<usize>,
    pub raid: Seq<char>,
}

impl View for DetectRequest {
    type V = DetectView;

    open spec fn view(&self) -> DetectView {
        DetectView {
            common: self.common@,
            output: opt_view(self.output),
            markdown: opt_view(self.markdown),
            top: self.top,
            stripe: self.stripe,
            raid: self.raid@,
        }
    }
}

/// The sizes `detect` parses fit in `usize`.
pub open spec fn detect_sizes_fit(args: Seq<Seq<char>>) -> bool {
    &&& common_sizes_fit(args)
    &&& spec_parse_common(args) is Ok ==> (spec_value_after(args, "--stripe"@) matches Some(v) ==> size_fits(v))
}

/// What the arguments of `detect` give: the shared options; the JSON report
/// path (`--output`, else `-o`); the Markdown report path; how many
/// candidates to keep (5 by default or when not a number); a forced stripe
/// size; and a forced RAID type (`auto` by default).
pub open spec fn spec_detect_cmd(args: Seq<Seq<char>>) -> Result<DetectView, Seq<char>> {
    match spec_parse_common(args) {
        Err(e) => Err(e),
        Ok(common) => {
            let output = match spec_value_after(args, "--output"@) {
                Some(v) => Some(v),
                None => spec_value_after(args, "-o"@),
            };
            let markdown = spec_value_after(args, "--markdown"@);
            let top = match spec_value_after(args, "--top"@) {
                Some(v) => match spec_parse_usize(v) {
                    Some(t) => t,
                    None => 5usize,
                },
                None => 5usize,
            };
            let stripe = match spec_value_after(args, "--stripe"@) {
                Some(v) => match spec_parse_size(v) {
                    Ok(n) => Ok(Some(n)),
                    Err(e) => Err(e),
                },
                None => Ok(None),
            };
            let raid = match spec_value_after(args, "--raid"@) {
                Some(v) => v,
                None => "auto"@,
            };
            match stripe {
                Err(e) => Err(e),
                Ok(stripe) => Ok(DetectView { common, output, markdown, top, stripe, raid }),
            }
        },
    }
}

/// Parses the arguments of the `detect` subcommand.
pub fn detect_cmd(args: &[String]) -> (r: Result<DetectRequest, String>)
    requires
        args@.len() < usize::MAX,
        detect_sizes_fit(arg_views(args@)),
    ensures
        match r {
            Ok(q) => spec_detect_cmd(arg_views(args@)) == Ok::<DetectView, Seq<char>>(q@),
            Err(e) => spec_detect_cmd(arg_views(args@)) == Err::<DetectView, Seq<char>>(e@),
        },
{
    let common = match parse_common(args) {
        Ok(c) => c,
        Err(e) => return Err(e),
    };
    let output = match value_after(args, "--output") {
        Some(v) => Some(v),
        None => value_after(args, "-o"),
    };
    let markdown = value_after(args, "--markdown");
    let top = match value_after(args, "--top") {
        Some(v) => match parse_usize(&chars_of(v.as_str())) {
            Some(t) => t,
            None => 5,
        },
        None => 5,
    };
    let stripe = match value_after(args, "--stripe") {
        Some(v) => match parse_size(v.as_str()) {
            Ok(n) => Some(n),
            Err(e) => return Err(e),
        },
        None => None,
    };
    let raid = match value_after(args, "--raid") {
        Some(v) => v,
        None => String::from_str("auto"),
    };
    Ok(DetectRequest { common, output, markdown, top, stripe, raid })
}

/// What `assemble` was asked to do.
pub struct AssembleRequest {
    pub common: CommonOptions,
    pub output: String,
    pub raid: String,
    pub stripe: usize,
    pub order: Option<Vec<usize>>,
    pub layout: Option<String>,
}

/// `AssembleRequest` as character sequences.
pub struct AssembleView {
    pub common: CommonView,
    pub output: Seq<char>,
    pub raid: Seq<char>,
    pub stripe: usize,
    pub order: Option<Seq<usize>>,
    pub layout: Option<Seq<char>>,
}

impl View for AssembleRequest {
    type V = AssembleView;

    open spec fn view(&self) -> AssembleView {
        AssembleView {
            common: self.common@,
            output: self.output@,
            raid: self.raid@,
            stripe: self.stripe,
            order: crate::raid::order_view(self.order),
            layout: opt_view(self.layout),
        }
    }
}

/// The disk order given with `--order`, if any, or the error for it.
pub open spec fn spec_order_option(args: Seq<Seq<char>>) -> Result<Option<Seq<usize>>, Seq<char>> {
    match spec_value_after(args, "--order"@) {
        Some(v) => match spec_parse_order(v) {
            Ok(o) => Ok(Some(o)),
            Err(e) => Err(e),
        },
        None => Ok(None),
    }
}

/// The sizes `assemble` parses fit in `usize`.
pub open spec fn assemble_sizes_fit(args: Seq<Seq<char>>) -> bool {
    &&& common_sizes_fit(args)
    &&& spec_parse_common(args) is Ok && spec_value_after(args, "--output"@) is Some
        && spec_value_after(args, "--raid"@) is Some
        ==> (spec_value_after(args, "--stripe"@) matches Some(v) ==> size_fits(v))
}

/// What the arguments of `assemble` give: the shared options, then the
/// required output path, RAID type and stripe size, in that order, then an
/// optional disk order and an optional layout.
pub open spec fn spec_assemble_cmd(args: Seq<Seq<char>>) -> Result<AssembleView, Seq<char>> {
    match spec_parse_common(args) {
        Err(e) => Err(e),
        Ok(common) => match spec_required_value(args, "--output"@) {
            Err(e) => Err(e),
            Ok(output) => match spec_required_value(args, "--raid"@) {
                Err(e) => Err(e),
                Ok(raid) => match spec_required_value(args, "--stripe"@) {
                    Err(e) => Err(e),
                    Ok(sv) => match spec_parse_size(sv) {
                        Err(e) => Err(e),
                        Ok(stripe) => match spec_order_option(args) {
                            Err(e) => Err(e),
                            Ok(order) => Ok(AssembleView {
                                common,
                                output,
                                raid,
                                stripe,
                                order,
                                layout: spec_value_after(args, "--layout"@),
                            }),
                        },
                    },
                },
            },
        },
    }
}

fn order_option(args: &[String]) -> (r: Result<Option<Vec<usize>>, String>)
    ensures
        match r {
            Ok(o) => spec_order_option(arg_views(args@)) == Ok::<Option<Seq<usize>>, Seq<char>>(crate::raid::order_view(o)),
            Err(e) => spec_order_option(arg_views(args@)) == Err::<Option<Seq<usize>>, Seq<char>>(e@),
        },
{
    match value_after(args, "--order") {
        Some(v) => match parse_order(v.as_str()) {
            Ok(o) => Ok(Some(o)),
            Err(e) => Err(e),
        },
        None => Ok(None),
    }
}

/// Parses the arguments of the `assemble` subcommand.
pub fn assemble_cmd(args: &[String]) -> (r: Result<AssembleRequest, String>)
    requires
        args@.len() < usize::MAX,
        assemble_sizes_fit(arg_views(args@)),
    ensures
        match r {
            Ok(q) => spec_assemble_cmd(arg_views(args@)) == Ok::<AssembleView, Seq<char>>(q@),
            Err(e) => spec_assemble_cmd(arg_views(args@)) == Err::<AssembleView, Seq<char>>(e@),
        },
{
    let common = match parse_common(args) {
        Ok(c) => c,
        Err(e) => return Err(e),
    };
    let output = match required_value(args, "--output") {
        Ok(v) => v,
        Err(e) => return Err(e),
    };
    let raid = match required_value(args, "--raid") {
        Ok(v) => v,
        Err(e) => return Err(e),
    };
    let stripe_text = match required_value(args, "--stripe") {
        Ok(v) => v,
        Err(e) => return Err(e),
    };
    let stripe = match parse_size(stripe_text.as_str()) {
        Ok(n) => n,
        Err(e) => return Err(e),
    };
    let order = match order_option(args) {
        Ok(o) => o,
        Err(e) => return Err(e),
    };
    let layout = value_after(args, "--layout");
    Ok(AssembleRequest { common, output, raid, stripe, order, layout })
}

/// What `recover` was asked to do.
pub struct RecoverRequest {
    pub common: CommonOptions,
    pub output: String,
    pub missing: usize,
    pub stripe: usize,
    pub order: Option<Vec<usize>>,
    pub layout: String,
}

/// `RecoverRequest` as character sequences.
pub struct RecoverView {
    pub common: CommonView,
    pub output: Seq<char>,
    pub missing: usize,
    pub stripe: usize,
    pub order: Option<Seq<usize>>,
    pub layout: Seq<char>,
}

impl View for RecoverRequest {
    type V = RecoverView;

    open spec fn view(&self) -> RecoverView {
        RecoverView {
            common: self.common@,
            output: self.output@,
            missing: self.missing,
            stripe: self.stripe,
            order: crate::raid::order_view(self.order),
            layout: self.layout@,
        }
    }
}

/// The sizes `recover` parses fit in `usize`.
pub open spec fn recover_sizes_fit(args: Seq<Seq<char>>) -> bool {
    &&& common_sizes_fit(args)
    &&& spec_parse_common(args) is Ok && spec_value_after(args, "--output"@) is Some
        && (spec_value_after(args, "--missing"@) matches Some(m) && spec_parse_usize(m) is Some)
        ==> (spec_value_after(args, "--stripe"@) matches Some(v) ==> size_fits(v))
}

/// What the arguments of `recover` give: the shared options, then the
/// required output path, missing disk index and stripe size, in that order,
/// then an optional disk order and a layout (left-symmetric by default).
pub open spec fn spec_recover_cmd(args: Seq<Seq<char>>) -> Result<RecoverView, Seq<char>> {
    match spec_parse_common(args) {
        Err(e) => Err(e),
        Ok(common) => match spec_required_value(args, "--output"@) {
            Err(e) => Err(e),
            Ok(output) => match spec_required_value(args, "--missing"@) {
                Err(e) => Err(e),
                Ok(mv) => match spec_parse_usize(mv) {
                    None => Err("--missing must be a zero-based disk index"@),
                    Some(missing) => match spec_required_value(args, "--stripe"@) {
                        Err(e) => Err(e),
                        Ok(sv) => match spec_parse_size(sv) {
                            Err(e) => Err(e),
                            Ok(stripe) => match spec_order_option(args) {
                                Err(e) => Err(e),
                                Ok(order) => Ok(RecoverView {
                                    common,
                                    output,
                                    missing,
                                    stripe,
                                    order,
                                    layout: match spec_value_after(args, "--layout"@) {
                                        Some(l) => l,
                                        None => "left-symmetric"@,
                                    },
                                }),
                            },
                        },
                    },
                },
            },
        },
    }
}

/// A parsed recover request takes its values from the options given: the
/// output path after `--output`, the disk index after `--missing`, the size
/// after `--stripe`, and the layout after `--layout`, which is
/// left-symmetric only when no `--layout` is given.
pub proof fn lemma_recover_request_from_options(args: Seq<Seq<char>>)
    ensures
        spec_recover_cmd(args) matches Ok(q) ==> {
            &&& spec_value_after(args, "--output"@) == Some(q.output)
            &&& spec_value_after(args, "--missing"@) matches Some(m) && spec_parse_usize(m) == Some(q.missing)
            &&& spec_value_after(args, "--stripe"@) matches Some(v) && spec_parse_size(v) == Ok::<usize, Seq<char>>(q.stripe)
            &&& q.layout == match spec_value_after(args, "--layout"@) {
                Some(l) => l,
                None => "left-symmetric"@,
            }
        },
{
}

/// Parses the arguments of the `recover` subcommand.
pub fn recover_cmd(args: &[String]) -> (r: Result<RecoverRequest, String>)
    requires
        args@.len() < usize::MAX,
        recover_sizes_fit(arg_views(args@)),
    ensures
        match r {
            Ok(q) => spec_recover_cmd(arg_views(args@)) == Ok::<RecoverView, Seq<char>>(q@),
            Err(e) => spec_recover_cmd(arg_views(args@)) == Err::<RecoverView, Seq<char>>(e@),
        },
{
    let common = match parse_common(args) {
        Ok(c) => c,
        Err(e) => return Err(e),
    };
    let output = match required_value(args, "--output") {
        Ok(v) => v,
        Err(e) => return Err(e),
    };
    let missing_text = match required_value(args, "--missing") {
        Ok(v) => v,
        Err(e) => return Err(e),
    };
    let missing = match parse_usize(&chars_of(missing_text.as_str())) {
        Some(m) => m,
        None => return Err(String::from_str("--missing must be a zero-based disk index")),
    };
    let stripe_text = match required_value(args, "--stripe") {
        Ok(v) => v,
        Err(e) => return Err(e),
    };
    let stripe = match parse_size(stripe_text.as_str()) {
        Ok(n) => n,
        Err(e) => return Err(e),
    };
    let order = match order_option(args) {
        Ok(o) => o,
        Err(e) => return Err(e),
    };
    let layout = match value_after(args, "--layout") {
        Some(l) => l,
        None => String::from_str("left-symmetric"),
    };
    Ok(RecoverRequest { common, output, missing, stripe, order, layout })
}


/// The subcommand to carry out, with its parsed arguments.
pub enum Command {
    Help,
    Scan(CommonOptions),
    Detect(DetectRequest),
    Assemble(AssembleRequest),
    Recover(RecoverRequest),
}

/// `Command` as character sequences.
pub enum CommandView {
    Help,
    Scan(CommonView),
    Detect(DetectView),
    Assemble(AssembleView),
    Recover(RecoverView),
}

impl View for Command {
    type V = CommandView;

    open spec fn view(&self) -> CommandView {
        match self {
            Command::Help => CommandView::Help,
            Command::Scan(c) => CommandView::Scan(c@),
            Command::Detect(q) => CommandView::Detect(q@),
            Command::Assemble(q) => CommandView::Assemble(q@),
            Command::Recover(q) => CommandView::Recover(q@),
        }
    }
}

/// The sizes that the subcommand named by `args[1]` parses fit in `usize`.
pub open spec fn run_sizes_fit(args: Seq<Seq<char>>) -> bool {
    args.len() >= 2 ==> {
        let rest = args.skip(2);
        &&& args[1] == "scan"@ ==> common_sizes_fit(rest)
        &&& args[1] == "detect"@ ==> detect_sizes_fit(rest)
        &&& args[1] == "assemble"@ ==> assemble_sizes_fit(rest)
        &&& args[1] == "recover"@ ==> recover_sizes_fit(rest)
    }
}

/// What the command line `args` (program name first) asks for: help when no
/// subcommand is given or help is asked for, otherwise the subcommand with
/// its arguments parsed; an error for an unknown subcommand.
pub open spec fn spec_run(args: Seq<Seq<char>>) -> Result<CommandView, Seq<char>> {
    if args.len() < 2 {
        Ok(CommandView::Help)
    } else {
        let command = args[1];
        let rest = args.skip(2);
        if command == "scan"@ {
            match spec_parse_common(rest) {
                Ok(c) => Ok(CommandView::Scan(c)),
                Err(e) => Err(e),
            }
        } else if command == "detect"@ {
            match spec_detect_cmd(rest) {
                Ok(q) => Ok(CommandView::Detect(q)),
                Err(e) => Err(e),
            }
        } else if command == "assemble"@ {
            match spec_assemble_cmd(rest) {
                Ok(q) => Ok(CommandView::Assemble(q)),
                Err(e) => Err(e),
            }
        } else if command == "recover"@ {
            match spec_recover_cmd(rest) {
                Ok(q) => Ok(CommandView::Recover(q)),
                Err(e) => Err(e),
            }
        } else if command == "help"@ || command == "-h"@ || command == "--help"@ {
            Ok(CommandView::Help)
        } else {
            Err("unknown command '"@ + command + "'"@)
        }
    }
}

fn value_fits(args: &[String], name: &str) -> (r: bool)
    ensures
        r == (spec_value_after(arg_views(args@), name@) matches Some(v) ==> size_fits(v)),
{
    match value_after(args, name) {
        Some(v) => size_in_range(v.as_str()),
        None => true,
    }
}

/// Whether every size that the command line `args` makes `run` parse fits
/// in `usize`, so that `run` may be called on it.
pub fn run_sizes_in_range(args: &Vec<String>) -> (r: bool)
    ensures
        r == run_sizes_fit(arg_views(args@)),
{
    if args.len() < 2 {
        return true;
    }
    let ghost views = arg_views(args@);
    let rest: &[String] = &args.as_slice()[2..args.len()];
    assert(arg_views(rest@) =~= views.skip(2));
    let command = args[1].as_str();
    let is_scan = str_eq(command, "scan");
    let is_detect = str_eq(command, "detect");
    let is_assemble = str_eq(command, "assemble");
    let is_recover = str_eq(command, "recover");
    proof {
        reveal_strlit("scan");
        reveal_strlit("detect");
        reveal_strlit("assemble");
        reveal_strlit("recover");
    }
    if !is_scan && !is_detect && !is_assemble && !is_recover {
        return true;
    }
    let common_fit = value_fits(rest, "--block-size");
    assert(views[1] == command@);
    assert(common_fit == common_sizes_fit(views.skip(2)));
    if is_scan || !common_fit {
        return common_fit;
    }
    let common_ok = match parse_common(rest) {
        Ok(_) => true,
        Err(_) => false,
    };
    let stripe_fit = value_fits(rest, "--stripe");
    if is_detect {
        return !common_ok || stripe_fit;
    }
    let has_output = value_after(rest, "--output").is_some();
    if is_assemble {
        let has_raid = value_after(rest, "--raid").is_some();
        return !(common_ok && has_output && has_raid) || stripe_fit;
    }
    let missing_ok = match value_after(rest, "--missing") {
        Some(m) => parse_usize(&chars_of(m.as_str())).is_some(),
        None => false,
    };
    !(common_ok && has_output && missing_ok) || stripe_fit
}

/// Reads the command line (program name first) and says what to do.
pub fn run(args: Vec<String>) -> (r: Result<Command, String>)
    requires
        args@.len() < usize::MAX,
        run_sizes_fit(arg_views(args@)),
    ensures
        match r {
            Ok(c) => spec_run(arg_views(args@)) == Ok::<CommandView, Seq<char>>(c@),
            Err(e) => spec_run(arg_views(args@)) == Err::<CommandView, Seq<char>>(e@),
        },
{
    if args.len() < 2 {
        return Ok(Command::Help);
    }
    let ghost views = arg_views(args@);
    let rest: &[String] = &args.as_slice()[2..args.len()];
    assert(arg_views(rest@) =~= views.skip(2));
    let command = args[1].as_str();
    if str_eq(command, "scan") {
        match parse_common(rest) {
            Ok(c) => Ok(Command::Scan(c)),
            Err(e) => Err(e),
        }
    } else if str_eq(command, "detect") {
        match detect_cmd(rest) {
            Ok(q) => Ok(Command::Detect(q)),
            Err(e) => Err(e),
        }
    } else if str_eq(command, "assemble") {
        match assemble_cmd(rest) {
            Ok(q) => Ok(Command::Assemble(q)),
            Err(e) => Err(e),
        }
    } else if str_eq(command, "recover") {
        match recover_cmd(rest) {
            Ok(q) => Ok(Command::Recover(q)),
            Err(e) => Err(e),
        }
    } else if str_eq(command, "help") || str_eq(command, "-h") || str_eq(command, "--help") {
        Ok(Command::Help)
    } else {
        Err(concat3("unknown command '", command, "'"))
    }
}


proof fn lemma_size_text_parts(q: nat, unit: char, lower_unit: char, s: Seq<char>)
    requires
        s == decimal(q).push(unit),
        lower_char(unit) == lower_unit,
        !is_white(unit),
    ensures
        trim(s) == s,
        ascii_lower(s) =~= decimal(q).push(lower_unit),
        trim(decimal(q)) == decimal(q),
        spec_parse_usize(decimal(q)) == Some(q as usize) || q > usize::MAX,
{
    lemma_decimal_digits(q);
    assert forall|i: int| 0 <= i < s.len() implies !is_white(#[trigger] s[i]) by {
        if i < s.len() - 1 {
            assert(s[i] == decimal(q)[i]);
        }
    }
    lemma_trim_no_white(s);
    lemma_trim_no_white(decimal(q));
    assert forall|i: int| 0 <= i < decimal(q).len() implies lower_char(#[trigger] decimal(q)[i]) == decimal(q)[i] by {
        assert('0' <= decimal(q)[i] && decimal(q)[i] <= '9');
    }
    assert(ascii_lower(s) =~= decimal(q).push(lower_unit)) by {
        assert forall|i: int| 0 <= i < s.len() implies #[trigger] ascii_lower(s)[i] == decimal(q).push(lower_unit)[i] by {
            if i < s.len() - 1 {
                assert(s[i] == decimal(q)[i]);
            }
        }
    }
}

/// Every stripe size as the detection summary shows it (`64K`, `1M`,
/// `1000`) parses back, as an option value, to the same number of bytes.
pub proof fn lemma_format_size_parses_back(n: usize)
    ensures
        size_fits(spec_format_size(n as nat)),
        spec_parse_size(spec_format_size(n as nat)) == Ok::<usize, Seq<char>>(n),
{
    reveal_strlit("kb");
    reveal_strlit("k");
    reveal_strlit("mb");
    reveal_strlit("m");
    let s = spec_format_size(n as nat);
    assert("k"@[0] == 'k' && "m"@[0] == 'm' && "kb"@[1] == 'b' && "mb"@[1] == 'b');
    assert("k"@.len() == 1 && "m"@.len() == 1 && "kb"@.len() == 2 && "mb"@.len() == 2);
    if n % 1048576 == 0 {
        let q = (n / 1024 / 1024) as nat;
        assert(n == q * 1048576) by (nonlinear_arith)
            requires n % 1048576 == 0, q == n / 1024 / 1024;
        lemma_size_text_parts(q, 'M', 'm', s);
        let lower = ascii_lower(trim(s));
        assert(lower.last() == 'm');
        assert(lower.subrange(lower.len() - 1, lower.len() as int) =~= "m"@);
        if lower.len() >= 2 {
            assert(lower.subrange(lower.len() - 2, lower.len() as int)[1] == 'm');
        }
        assert(!ends_with(lower, "kb"@));
        assert(!ends_with(lower, "k"@));
        assert(!ends_with(lower, "mb"@));
        assert(strip_suffix(lower, "m"@) =~= decimal(q));
        lemma_decimal_digits(q);
        assert(size_parts(s) == (decimal(q), 1048576nat));
        assert(spec_parse_usize(trim(decimal(q))) == Some(q as usize));
        assert((q as usize) as nat * 1048576 == n);
        assert(size_fits(s));
        assert(spec_parse_size(s) == Ok::<usize, Seq<char>>(n));
    } else if n % 1024 == 0 {
        let q = (n / 1024) as nat;
        assert(n == q * 1024) by (nonlinear_arith)
            requires n % 1024 == 0, q == n / 1024;
        lemma_size_text_parts(q, 'K', 'k', s);
        let lower = ascii_lower(trim(s));
        assert(lower.last() == 'k');
        assert(lower.subrange(lower.len() - 1, lower.len() as int) =~= "k"@);
        if lower.len() >= 2 {
            assert(lower.subrange(lower.len() - 2, lower.len() as int)[1] == 'k');
        }
        assert(!ends_with(lower, "kb"@));
        assert(strip_suffix(lower, "k"@) =~= decimal(q));
        lemma_decimal_digits(q);
        assert(size_parts(s) == (decimal(q), 1024nat));
        assert(spec_parse_usize(trim(decimal(q))) == Some(q as usize));
        assert((q as usize) as nat * 1024 == n);
        assert(size_fits(s));
        assert(spec_parse_size(s) == Ok::<usize, Seq<char>>(n));
    } else {
        lemma_decimal_digits(n as nat);
        lemma_trim_no_white(s);
        let lower = ascii_lower(trim(s));
        assert forall|i: int| 0 <= i < s.len() implies #[trigger] lower[i] == s[i] by {
            assert('0' <= s[i] && s[i] <= '9');
        }
        assert(lower =~= s);
        assert('0' <= lower.last() && lower.last() <= '9');
        if lower.len() >= 2 {
            assert(lower.subrange(lower.len() - 2, lower.len() as int)[1] == lower.last());
        }
        assert(lower.subrange(lower.len() - 1, lower.len() as int)[0] == lower.last());
        assert(!ends_with(lower, "kb"@));
        assert(!ends_with(lower, "k"@));
        assert(!ends_with(lower, "mb"@));
        assert(!ends_with(lower, "m"@));
        assert(size_parts(s) == (lower, 1nat));
        lemma_trim_no_white(lower);
        assert(spec_parse_usize(trim(lower)) == Some(n));
        assert(size_parts(s).0 == lower);
        assert(size_parts(s).1 == 1);
        assert(spec_parse_usize(trim(size_parts(s).0)) == Some(n));
        assert(n * size_parts(s).1 == n);
        assert(size_fits(s));
        assert(spec_parse_size(s) == Ok::<usize, Seq<char>>(n));
    }
}

} // verus!
