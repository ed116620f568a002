//! Decisions of the command-line front end: which catalog model a name means,
//! how `--model` resolves, and which inference engine runs.
use vstd::prelude::*;
use crate::model::{TaskType, InputSpec, ClassDef, ModelConfig};

verus! {

/// A model of the built-in catalog.
#[derive(Debug, Clone, Copy, PartialEq, Eq, Structural)]
pub enum CatalogModel {
    Buildings,
    Roads,
    Vegetation,
    Landcover,
}

/// The catalog model a name refers to.
pub open spec fn catalog_of(name: Seq<char>) -> Option<CatalogModel> {
    if name == "buildings"@ {
        Some(CatalogModel::Buildings)
    } else if name == "roads"@ {
        Some(CatalogModel::Roads)
    } else if name == "vegetation"@ {
        Some(CatalogModel::Vegetation)
    } else if name == "landcover"@ {
        Some(CatalogModel::Landcover)
    } else {
        None
    }
}

/// Whether two strings hold the same characters.
fn same_text(a: &str, b: &str) -> (r: bool)
    ensures
        r == (a@ == b@),
{
    a.to_owned() == b.to_owned()
}

/// Map a catalog model name to its catalog entry.
pub fn catalog_config(model: &str) -> (r: Option<CatalogModel>)
    ensures
        r == catalog_of(model@),
{
    if same_text(model, "buildings") {
        Some(CatalogModel::Buildings)
    } else if same_text(model, "roads") {
        Some(CatalogModel::Roads)
    } else if same_text(model, "vegetation") {
        Some(CatalogModel::Vegetation)
    } else if same_text(model, "landcover") {
        Some(CatalogModel::Landcover)
    } else {
        None
    }
}

/// `cfg` is the two-class (background, foreground) segmentation configuration of a
/// user-supplied model file `model`, with square tiles of `tile_size`.
pub open spec fn is_generic_config(
    cfg: ModelConfig,
    model: Seq<char>,
    tile_size: usize,
    imagenet_normalize: bool,
) -> bool {
    &&& cfg.name@ == "user-onnx ("@ + model + ")"@
    &&& cfg.version@ == "user"@
    &&& cfg.task == TaskType::Segmentation
    &&& cfg.input == InputSpec {
        channels: 3,
        height: tile_size,
        width: tile_size,
        imagenet_normalize,
    }
    &&& cfg.classes@.len() == 2
    &&& cfg.classes@[0].id == 0
    &&& cfg.classes@[0].name@ == "background"@
    &&& cfg.classes@[0].color@ == seq![0u8, 0u8, 0u8]
    &&& cfg.classes@[1].id == 1
    &&& cfg.classes@[1].name@ == "foreground"@
    &&& cfg.classes@[1].color@ == seq![255u8, 0u8, 0u8]
    &&& cfg.model_path matches Some(p) && p@ == model
}

/// Binary segmentation config for a user-provided ONNX model.
pub fn generic_onnx_config(model: &str, tile_size: usize, imagenet_normalize: bool) -> (cfg:
    ModelConfig)
    ensures
        is_generic_config(cfg, model@, tile_size, imagenet_normalize),
        cfg.input.imagenet_normalize == imagenet_normalize,
        cfg.input.channels == 3,
        cfg.input.height == tile_size,
        cfg.input.width == tile_size,
        cfg.task == TaskType::Segmentation,
        cfg.classes@.len() == 2,
{
    let mut name = String::from_str("user-onnx (");
    name.append(model);
    name.append(")");
    let mut classes: Vec<ClassDef> = Vec::new();
    classes.push(ClassDef { id: 0, name: String::from_str("background"), color: [0, 0, 0] });
    classes.push(ClassDef { id: 1, name: String::from_str("foreground"), color: [255, 0, 0] });
    let cfg = ModelConfig {
        name,
        version: String::from_str("user"),
        task: TaskType::Segmentation,
        input: InputSpec {
            channels: 3,
            height: tile_size,
            width: tile_size,
            imagenet_normalize,
        },
        classes,
        model_path: Some(String::from_str(model)),
    };
    assert(cfg.name@ == "user-onnx ("@ + model@ + ")"@);
    cfg
}

/// Where `--model` takes the model from.
#[derive(Debug, Clone)]
pub enum ModelSource {
    /// A catalog entry; it runs ONNX only when its weights file exists locally.
    Catalog(CatalogModel),
    /// A user-supplied ONNX file, with its generic configuration.
    UserFile(ModelConfig),
}

/// The message for a `--model` that is neither a catalog name nor a file.
pub open spec fn unknown_model_message(model: Seq<char>) -> Seq<char> {
    "Unknown model '"@ + model
        + "': not a catalog name and not an existing file.\nSee the README (Model weights, Model contract) for the catalog models and for what a --model file must be."@
}

/// Resolve `--model`: a catalog name yields its catalog entry; anything else is
/// a path to a user ONNX segmentation model, which must exist (`path_exists`).
pub fn resolve_model(
    model: &str,
    tile_size: usize,
    imagenet_normalize: bool,
    path_exists: bool,
) -> (r: Result<ModelSource, String>)
    ensures
        catalog_of(model@) matches Some(c) ==> (r matches Ok(ModelSource::Catalog(c2)) && c2 == c),
        catalog_of(model@) is None && path_exists ==> (r matches Ok(ModelSource::UserFile(cfg))
            && is_generic_config(cfg, model@, tile_size, imagenet_normalize)
            && cfg.input.imagenet_normalize == imagenet_normalize && cfg.input.height == tile_size
            && cfg.input.width == tile_size),
        catalog_of(model@) is None && !path_exists ==> (r matches Err(msg) && msg@
            == unknown_model_message(model@)),
{
    match catalog_config(model) {
        Some(c) => Ok(ModelSource::Catalog(c)),
        None => {
            if path_exists {
                Ok(ModelSource::UserFile(generic_onnx_config(model, tile_size, imagenet_normalize)))
            } else {
                let mut msg = String::from_str("Unknown model '");
                msg.append(model);
                msg.append(
                    "': not a catalog name and not an existing file.\nSee the README (Model weights, Model contract) for the catalog models and for what a --model file must be.",
                );
                Err(msg)
            }
        },
    }
}

/// The engine that runs a segmentation.
#[derive(Debug, Clone, Copy, PartialEq, Eq, Structural)]
pub enum EngineChoice {
    /// The threshold heuristic.
    Threshold,
    /// ONNX Runtime on the model file.
    Onnx,
    /// The threshold heuristic, because this build has no ONNX support although a model was given.
    ThresholdWithoutOnnx,
}

/// Why no engine can run.
#[derive(Debug, Clone, Copy, PartialEq, Eq, Structural)]
pub enum EngineError {
    /// The engine name is none of `auto`, `onnx`, `threshold`.
    UnknownEngine,
    /// `--engine onnx` was asked for without an ONNX model file.
    OnnxNeedsModel,
    /// `--engine onnx` was asked for in a build without ONNX support.
    NoOnnxSupport,
}

/// The engine that `--engine` selects, given whether an ONNX model file is at hand
/// and whether this build supports ONNX.
pub open spec fn engine_for(engine: Seq<char>, has_model: bool, onnx_enabled: bool) -> Result<
    EngineChoice,
    EngineError,
> {
    if engine == "threshold"@ {
        Ok(EngineChoice::Threshold)
    } else if engine == "onnx"@ {
        if !onnx_enabled {
            Err(EngineError::NoOnnxSupport)
        } else if has_model {
            Ok(EngineChoice::Onnx)
        } else {
            Err(EngineError::OnnxNeedsModel)
        }
    } else if engine == "auto"@ {
        if !has_model {
            Ok(EngineChoice::Threshold)
        } else if onnx_enabled {
            Ok(EngineChoice::Onnx)
        } else {
            Ok(EngineChoice::ThresholdWithoutOnnx)
        }
    } else {
        Err(EngineError::UnknownEngine)
    }
}

/// Select the segmentation engine: `threshold` forces the heuristic, `onnx`
/// requires a model file, `auto` runs ONNX exactly when a model file is at hand.
pub fn choose_engine(engine: &str, has_model: bool, onnx_enabled: bool) -> (r: Result<
    EngineChoice,
    EngineError,
>)
    ensures
        r == engine_for(engine@, has_model, onnx_enabled),
        engine@ == "threshold"@ ==> r == Ok::<EngineChoice, EngineError>(EngineChoice::Threshold),
        engine@ == "auto"@ ==> r is Ok,
        engine@ == "auto"@ && !has_model ==> r == Ok::<EngineChoice, EngineError>(
            EngineChoice::Threshold,
        ),
        r == Err::<EngineChoice, EngineError>(EngineError::NoOnnxSupport) ==> engine@ == "onnx"@
            && !onnx_enabled,
        r == Err::<EngineChoice, EngineError>(EngineError::OnnxNeedsModel) ==> engine@ == "onnx"@
            && !has_model,
        r == Ok::<EngineChoice, EngineError>(EngineChoice::Onnx) ==> has_model && onnx_enabled,
{
    proof {
        engine_laws(engine@, has_model, onnx_enabled);
    }
    let want_onnx = if same_text(engine, "threshold") {
        false
    } else if same_text(engine, "onnx") {
        true
    } else if same_text(engine, "auto") {
        has_model
    } else {
        return Err(EngineError::UnknownEngine);
    };
    if want_onnx {
        if onnx_enabled {
            if has_model {
                return Ok(EngineChoice::Onnx);
            } else {
                return Err(EngineError::OnnxNeedsModel);
            }
        }
        if same_text(engine, "onnx") {
            return Err(EngineError::NoOnnxSupport);
        }
        return Ok(EngineChoice::ThresholdWithoutOnnx);
    }
    Ok(EngineChoice::Threshold)
}

/// The engine rules: `threshold` always runs the heuristic; `auto` never fails, and
/// without a model file it runs the heuristic; ONNX runs only with a model file in a
/// build with ONNX support; a missing model or missing ONNX support is an error only
/// when `onnx` is asked for; any other name is refused.
pub proof fn engine_laws(engine: Seq<char>, has_model: bool, onnx_enabled: bool)
    ensures
        engine == "threshold"@ ==> engine_for(engine, has_model, onnx_enabled) == Ok::<
            EngineChoice,
            EngineError,
        >(EngineChoice::Threshold),
        engine == "auto"@ ==> engine_for(engine, has_model, onnx_enabled) is Ok,
        engine == "auto"@ && !has_model ==> engine_for(engine, has_model, onnx_enabled) == Ok::<
            EngineChoice,
            EngineError,
        >(EngineChoice::Threshold),
        engine == "onnx"@ && has_model && onnx_enabled ==> engine_for(engine, has_model, onnx_enabled)
            == Ok::<EngineChoice, EngineError>(EngineChoice::Onnx),
        engine_for(engine, has_model, onnx_enabled) == Err::<EngineChoice, EngineError>(
            EngineError::NoOnnxSupport,
        ) ==> engine == "onnx"@ && !onnx_enabled,
        engine_for(engine, has_model, onnx_enabled) == Err::<EngineChoice, EngineError>(
            EngineError::OnnxNeedsModel,
        ) ==> engine == "onnx"@ && !has_model,
        engine_for(engine, has_model, onnx_enabled) == Ok::<EngineChoice, EngineError>(
            EngineChoice::Onnx,
        ) ==> has_model && onnx_enabled,
        engine_for(engine, has_model, onnx_enabled) == Err::<EngineChoice, EngineError>(
            EngineError::UnknownEngine,
        ) <==> (engine != "threshold"@ && engine != "onnx"@ && engine != "auto"@),
{
    reveal_strlit("threshold");
    reveal_strlit("onnx");
    reveal_strlit("auto");
    assert("auto"@.len() != "threshold"@.len());
    assert("auto"@[0] != "onnx"@[0]);
    assert("onnx"@.len() != "threshold"@.len());
}

/// A user model's configuration is a two-class segmentation with square tiles of the
/// given size, three input channels, and ImageNet normalization exactly when asked for.
pub proof fn user_config_follows_the_flags(
    cfg: ModelConfig,
    model: Seq<char>,
    tile_size: usize,
    imagenet_normalize: bool,
)
    requires
        is_generic_config(cfg, model, tile_size, imagenet_normalize),
    ensures
        cfg.input.imagenet_normalize == imagenet_normalize,
        cfg.input.channels == 3,
        cfg.input.height == tile_size,
        cfg.input.width == tile_size,
        cfg.task == TaskType::Segmentation,
        cfg.classes@.len() == 2,
        cfg.model_path matches Some(p) && p@ == model,
{
}

} // verus!
