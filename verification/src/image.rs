//! Which image the checkout runs: the first of the environment, the `.env`
//! file and the running container that names one, else the default.
use vstd::prelude::*;

use crate::commands::{non_empty_trimmed, DEFAULT_IMAGE};
use crate::text::trim;

verus! {

/// A place the image can be named in, in the order they are consulted.
#[derive(Clone, Copy, Debug, PartialEq, Eq)]
pub enum ImageSource {
    /// The `OPENCLAW_IMAGE` environment variable.
    Environment,
    /// `OPENCLAW_IMAGE` in the checkout's `.env`.
    DotenvFile,
    /// The image of the running gateway container.
    RunningContainer,
}

/// What to do after consulting a source.
#[derive(Clone, Debug)]
pub enum ImageStep {
    /// Run this image.
    Use(String),
    /// Consult this source next.
    LookAt(ImageSource),
}

/// The outcome of consulting `source` and finding `found` there: the image
/// to use (`Ok`) or the next source (`Err`). The environment and `.env`
/// count only when they hold more than whitespace, and give the value
/// trimmed; the running container's image is taken as found, and without
/// one the default image is used.
pub open spec fn image_step_spec(source: ImageSource, found: Option<Seq<char>>) -> Result<
    Seq<char>,
    ImageSource,
> {
    match source {
        ImageSource::Environment => match found {
            Some(v) if trim(v).len() > 0 => Ok(trim(v)),
            _ => Err(ImageSource::DotenvFile),
        },
        ImageSource::DotenvFile => match found {
            Some(v) if trim(v).len() > 0 => Ok(trim(v)),
            _ => Err(ImageSource::RunningContainer),
        },
        ImageSource::RunningContainer => match found {
            Some(v) => Ok(v),
            None => Ok(DEFAULT_IMAGE@),
        },
    }
}

pub open spec fn opt_view(found: Option<&str>) -> Option<Seq<char>> {
    match found {
        Some(v) => Some(v@),
        None => None,
    }
}

/// The image chosen when the environment holds `env`, `.env` holds `dotenv`
/// and the running container runs `running`.
pub open spec fn resolved_image(
    env: Option<Seq<char>>,
    dotenv: Option<Seq<char>>,
    running: Option<Seq<char>>,
) -> Seq<char> {
    if env is Some && trim(env.unwrap()).len() > 0 {
        trim(env.unwrap())
    } else if dotenv is Some && trim(dotenv.unwrap()).len() > 0 {
        trim(dotenv.unwrap())
    } else if running is Some {
        running.unwrap()
    } else {
        DEFAULT_IMAGE@
    }
}

/// One step of choosing the image.
pub fn image_step(source: ImageSource, found: Option<&str>) -> (res: ImageStep)
    ensures
        match image_step_spec(source, opt_view(found)) {
            Ok(image) => res matches ImageStep::Use(i) && i@ == image,
            Err(next) => res matches ImageStep::LookAt(n) && n == next,
        },
{
    match source {
        ImageSource::Environment | ImageSource::DotenvFile => {
            let next = match source {
                ImageSource::Environment => ImageSource::DotenvFile,
                _ => ImageSource::RunningContainer,
            };
            match found {
                Some(v) => match non_empty_trimmed(v) {
                    Some(image) => ImageStep::Use(image),
                    None => ImageStep::LookAt(next),
                },
                None => ImageStep::LookAt(next),
            }
        },
        ImageSource::RunningContainer => match found {
            Some(v) => ImageStep::Use(v.to_owned()),
            None => ImageStep::Use(DEFAULT_IMAGE.to_owned()),
        },
    }
}

/// Consulting the sources in the order the steps name them, starting with
/// the environment, reaches `resolved_image`: the environment wins over
/// `.env`, which wins over the running container, which wins over the
/// default.
pub proof fn lemma_image_precedence(
    env: Option<Seq<char>>,
    dotenv: Option<Seq<char>>,
    running: Option<Seq<char>>,
)
    ensures
        ({
            let first = image_step_spec(ImageSource::Environment, env);
            let chosen = match first {
                Ok(i) => i,
                Err(_) => match image_step_spec(ImageSource::DotenvFile, dotenv) {
                    Ok(i) => i,
                    Err(_) => match image_step_spec(ImageSource::RunningContainer, running) {
                        Ok(i) => i,
                        Err(_) => seq![],
                    },
                },
            };
            &&& first matches Err(n) ==> n == ImageSource::DotenvFile
            &&& image_step_spec(ImageSource::DotenvFile, dotenv) matches Err(n) ==> n
                == ImageSource::RunningContainer
            &&& image_step_spec(ImageSource::RunningContainer, running) is Ok
            &&& chosen == resolved_image(env, dotenv, running)
        }),
{
}

} // verus!
