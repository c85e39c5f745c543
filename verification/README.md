# imageindex

Indexes a folder of photos and videos and writes one CSV row per file: when and
where it was taken, with which camera, who is on it, what it shows, how sharp it
is, and which other files show the same shot.

The library under `src/` holds the decisions and what is computed on integers,
text and images, with contracts that Verus proves. The program under `app/` reads
and writes files, calls web services, runs `ffmpeg` and `ffprobe`, evaluates the
face models and computes in floating point. It also decodes the images whose
decoders may panic on damaged files: all but PNG and BMP.

## Usage

```
cs-imageindex --folder /path/to/photos --out index.csv \
    --refdir /path/to/reference --models-dir /path/to/models
```

Provider, endpoint, model and key of the vision service come from the command
line, else from the environment (`CS_IMAGEINDEX_PROVIDER`, `_ENDPOINT`, `_MODEL`,
`_API_KEY`, `_MAX_TOKENS`), else from the file given with `--config`, and as a
last resort from the second slot of the file given with `--legacy-cfg`. With
`--ollama` a local Ollama instance is asked instead. Where nothing gives an
endpoint and a model, photos are not described.

## Supported formats

- JPEG, PNG, BMP and TIFF, told by their content.
- Raw camera files: CR2, CR3, NEF, ARW, DNG, ORF, RW2, RAF, PEF, SRW.
- HEIC and HEIF, through `ffmpeg`.
- MP4, MOV, AVI, M4V and MKV, through `ffmpeg` and `ffprobe`.

`ffmpeg` and `ffprobe` are looked for next to the program, then on `PATH`.

## Layout

| Module | What it decides |
| --- | --- |
| `walk`, `path`, `media` | which files are indexed, and how each is read |
| `process` | the work on one file, from its kind to its row |
| `exif_read`, `video` | what a photo or a video tells of itself |
| `picture` | decoding of PNG and BMP, orientation, perceptual hash, blur responses, data URLs |
| `face` | which detections stand, and whom a face belongs to |
| `vision`, `geocode`, `json` | requests to services and what replies say |
| `heic` | the calls of libheif, and what they hold |
| `dedup` | groups of photos of one shot |
| `rows`, `output`, `chunks`, `resume` | rows, files of the index, resumed runs |
| `facets`, `csv_text` | pick-lists of the values in the index |
| `config` | settings of the vision service |
| `text`, `number`, `ieee` | text, numbers as text, the order of floats |

Each module ends with the laws that hold over its functions (`law_..`). What is
taken from other crates stands behind small functions marked
`external_body`, whose doc comments say what is relied on.

`Cargo.toml` names `kstring`, which only `tract-onnx` uses, to hold it to a
version that the compiler takes.
