float4 hiSample(float2 uv, float sharpen, out float valid) {
    float g = max(hiGrid, 1.0);
    float2 tc = clamp(floor(uv * g), 0.0, g - 1.0);
    int ti = int(tc.y * g + tc.x);
    float4 A = tileAffine[ti];
    float cov = tileCoverA[ti];
    float2 uvt = float2(uv.x * A.x + A.y, uv.y * A.z + A.w);
    float2 c = (tc + 0.5) / g;
    float2 d = uvt - c;
    float lim = 0.5 * cov;
    valid = (cov > 0.01 && abs(d.x) <= lim && abs(d.y) <= lim) ? 1.0 : 0.0;
    float2 huv = clamp(0.5 + d / max(cov, 0.01), 0.0005, 0.9995);
    return sharpTapA(hiTex, huv, float(ti), float2(hiTexW, hiTexH), sharpen);
}

float4 main(float4 pos : SV_POSITION, float2 uv : TEXCOORD0) : SV_TARGET {
    uv.y += texVShift;
    float t = (tint > 0.01) ? tint : 1.0;
    if (texW < 1.0) {
        float4 c0 = sceneTex.Sample(samp, uv);
        c0.rgb *= t;
        return c0;
    }
    float sharp = max(planeScale * 4.0, 6.0);
    float4 c = sharpTap(sceneTex, uv, float2(texW, texH), sharp);
    if (hiOn > 0.5) {
        float valid;
        float4 hc = hiSample(uv, sharp, valid);
        if (valid > 0.5)
            c = hc + (1.0 - hc.a) * c;
    }
    c.rgb *= t;
    return c;
}
