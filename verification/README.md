# tethermoon

Remote control of a tethered camera: exposure and brackets, focus by contrast, multiple
exposures, stacking of a drifting sky.

`src/` is the library. It decides and computes, and every function in it is verified: the
contracts say what comes out for which input, and the `law_` functions state what holds of
several calls together. `app/` is the server around it: the web interface, the camera's SDK,
files and the network. It performs what the library asks for and reports back what happened.

## Layout of the library

| Modules | What they hold |
|---|---|
| `jpeg`, `json`, `text` | codecs and text primitives; the outside calls stand here |
| `markers` | the segments of a JPEG file, and which pictures the decoder cannot count |
| `grid`, `order`, `wide` | sums over rectangles, stable ranking, large whole numbers |
| `autofocus`, `sweep`, `lock`, `swaf` | sharpness, the search for the best focus, and watching over it |
| `stars`, `align`, `stacker`, `stack` | finding stars, moving frames onto one another, stacking sessions |
| `composite`, `capture` | multiple exposures, timed exposures, intervals, brackets |
| `body`, `props`, `connection`, `lifecycle` | the camera: its model, settings, connection |
| `stream`, `storage`, `detector`, `reply` | events and live view, saved pictures, detections, answers |

## Units

There is no floating point in the library. Fractions of a frame are billionths, luminances
thousandths of a grey level, sharpness millionths of a squared level, places of stars
millionths of a pixel.

## What is taken on trust

The JPEG codec (`jpeg_decoder`, `jpeg_encoder`), the JSON reader and writer (`serde_json`) and
`String::push`. Each stands behind one function whose comment says what is believed of it.
