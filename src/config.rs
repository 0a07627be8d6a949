use vstd::prelude::*;
use crate::error::Error;
use crate::scale::{
    ScaleFactor,
    is_float_name,
    is_scale_literal,
    literal_den,
    literal_in_range,
    literal_num,
    parse_scale,
};

verus! {

/// What one run renders: the image, how far to shrink it, and the polarity.
pub struct Config {
    pub image_path: String,
    pub scale_factor: ScaleFactor,
    pub invert: bool,
}

impl Config {
    pub open spec fn wf(&self) -> bool {
        self.scale_factor.wf()
    }

    /// Builds the configuration from the command-line tokens: the program
    /// name, the image path, the scale factor, and an optional fourth token
    /// whose presence inverts the polarity.
    pub fn build(args: &[String]) -> (r: Result<Config, Error>)
        ensures
            args@.len() < 3 <==> r == Err::<Config, Error>(Error::InvalidArguments),
            args@.len() >= 3 && !is_scale_literal(args@[2]@) && !is_float_name(args@[2]@) ==> r
                == Err::<Config, Error>(Error::InvalidNumber),
            args@.len() >= 3 && is_float_name(args@[2]@) ==> r == Err::<Config, Error>(
                Error::InvalidRange,
            ),
            args@.len() >= 3 && is_scale_literal(args@[2]@) && !literal_in_range(args@[2]@) ==> r
                == Err::<Config, Error>(Error::InvalidRange),
            args@.len() >= 3 && is_scale_literal(args@[2]@) && literal_in_range(args@[2]@) ==> r is Ok,
            r matches Ok(c) ==> {
                &&& c.wf()
                &&& c.image_path@ == args@[1]@
                &&& c.invert == (args@.len() >= 4)
                &&& c.scale_factor.num() * literal_den(args@[2]@) == literal_num(args@[2]@)
                    * c.scale_factor.den()
            },
    {
        if args.len() < 3 {
            return Err(Error::InvalidArguments);
        }
        let scale_factor = match parse_scale(args[2].as_str()) {
            Ok(sf) => sf,
            Err(e) => {
                return Err(e);
            },
        };
        let image_path = args[1].clone();
        Ok(Config { image_path, scale_factor, invert: args.len() >= 4 })
    }
}

} // verus!
